//! IP → ASN over the ASNDB `asndb-tiny.bin` (flavor 4) format.
//!
//! Layout: a 104-byte header (magic, flavor, table counts and offsets), a
//! table of 24-byte records (ASN, string offsets of RPSL name, organisation
//! and website, country code, kind, info type, registry), the IPv4 segments
//! (`u32` start, `u32` record index) and the IPv6 segments (big-endian
//! `u128` start, `u32` record index), both ascending by start, and a pool
//! of strings (`u32` length, then the UTF-8 bytes; offset 0 is the empty
//! string).

use vstd::prelude::*;
use vstd::utf8::{valid_utf8, decode_utf8};

use crate::provider::{
    drop_back, first_token_spec, provider, provider_defined, provider_is_defined, provider_spec,
    split_first_token,
};
use crate::search::{
    ascending,
    upper_bound,
    partition_point_pairs_u32,
    partition_point_pairs_u128,
    is_ascending_pairs_u32,
    is_ascending_pairs_u128,
    splits_at,
    lemma_split_is_upper_bound,
};
use crate::text::{str_from_utf8, to_chars, string_from_chars};
use crate::wire::{be_value, le_at, u128_be, u32le, u64le};
use crate::{DbError, IpAddress};

verus! {

/// The magic at the start of an ASNDB blob.
pub const ASNDB_MAGIC: u64 = 0x0004_4244_4E53_4144;

/// The flavor byte of the tiny layout.
pub const FLAVOR_TINY: u8 = 4;

/// Bytes per ASN record.
pub const TINY_REC_SIZE: u64 = 24;

/// Bytes in the header.
pub const HEADER_SIZE: usize = 104;

/// Record index of segments that belong to no AS.
pub const NO_ASN: u32 = 0xFFFF_FFFF;

/// Per-ASN metadata returned for an IP lookup.
#[derive(Debug, Clone)]
pub struct AsnInfo {
    /// Autonomous System Number.
    pub asn: u32,
    /// RPSL handle (e.g. `CLOUDFLARENET`).
    pub name: String,
    /// CAIDA org name (e.g. `Cloudflare, Inc.`).
    pub company: String,
    /// Website URL if known.
    pub website: String,
    /// Cleaned brand derived from `name` + `company` (e.g. `Cloudflare`).
    pub provider: String,
    /// ISO 3166-1 alpha-2 country code for the ASN.
    pub country_code: String,
    /// CAIDA-derived AS kind (Tier-1, Transit, Content, ISP, ...).
    pub kind: &'static str,
    /// PeeringDB declared info type (NSP, Cable/DSL/ISP, Content, ...).
    pub info_type: &'static str,
    /// RIR that allocated the ASN.
    pub rir: &'static str,
}

/// The texts of an [`AsnInfo`].
pub struct AsnInfoView {
    pub asn: u32,
    pub name: Seq<char>,
    pub company: Seq<char>,
    pub website: Seq<char>,
    pub provider: Seq<char>,
    pub country_code: Seq<char>,
    pub kind: Seq<char>,
    pub info_type: Seq<char>,
    pub rir: Seq<char>,
}

impl View for AsnInfo {
    type V = AsnInfoView;

    open spec fn view(&self) -> AsnInfoView {
        AsnInfoView {
            asn: self.asn,
            name: self.name@,
            company: self.company@,
            website: self.website@,
            provider: self.provider@,
            country_code: self.country_code@,
            kind: self.kind@,
            info_type: self.info_type@,
            rir: self.rir@,
        }
    }
}

// ---------------------------------------------------------------------------
// Names of the enumerations
// ---------------------------------------------------------------------------

/// The name of an AS kind code.
pub open spec fn kind_spec(v: u8) -> Seq<char> {
    if v == 1 {
        "Tier-1"@
    } else if v == 2 {
        "Transit"@
    } else if v == 3 {
        "Content"@
    } else if v == 4 {
        "ISP"@
    } else if v == 5 {
        "Enterprise"@
    } else if v == 6 {
        "Education"@
    } else if v == 7 {
        "Non-Profit"@
    } else if v == 8 {
        "Government"@
    } else if v == 9 {
        "Personal"@
    } else if v == 10 {
        "Stub"@
    } else {
        ""@
    }
}

fn kind_name(value: u8) -> (r: &'static str)
    ensures
        r@ == kind_spec(value),
{
    match value {
        1 => "Tier-1",
        2 => "Transit",
        3 => "Content",
        4 => "ISP",
        5 => "Enterprise",
        6 => "Education",
        7 => "Non-Profit",
        8 => "Government",
        9 => "Personal",
        10 => "Stub",
        _ => "",
    }
}

/// The name of a PeeringDB info-type code.
pub open spec fn info_type_spec(v: u8) -> Seq<char> {
    if v == 1 {
        "NSP"@
    } else if v == 2 {
        "Cable/DSL/ISP"@
    } else if v == 3 {
        "Content"@
    } else if v == 4 {
        "Enterprise"@
    } else if v == 5 {
        "Educational/Research"@
    } else if v == 6 {
        "Non-Profit"@
    } else if v == 7 {
        "Route Server"@
    } else if v == 8 {
        "Network Services"@
    } else if v == 9 {
        "Route Collector"@
    } else if v == 10 {
        "Government"@
    } else if v == 11 {
        "Personal"@
    } else {
        ""@
    }
}

fn info_type_name(value: u8) -> (r: &'static str)
    ensures
        r@ == info_type_spec(value),
{
    match value {
        1 => "NSP",
        2 => "Cable/DSL/ISP",
        3 => "Content",
        4 => "Enterprise",
        5 => "Educational/Research",
        6 => "Non-Profit",
        7 => "Route Server",
        8 => "Network Services",
        9 => "Route Collector",
        10 => "Government",
        11 => "Personal",
        _ => "",
    }
}

/// The name of a regional registry code.
pub open spec fn rir_spec(v: u8) -> Seq<char> {
    if v == 1 {
        "ARIN"@
    } else if v == 2 {
        "RIPE"@
    } else if v == 3 {
        "APNIC"@
    } else if v == 4 {
        "AFRINIC"@
    } else if v == 5 {
        "LACNIC"@
    } else {
        ""@
    }
}

fn rir_name(value: u8) -> (r: &'static str)
    ensures
        r@ == rir_spec(value),
{
    match value {
        1 => "ARIN",
        2 => "RIPE",
        3 => "APNIC",
        4 => "AFRINIC",
        5 => "LACNIC",
        _ => "",
    }
}

// ---------------------------------------------------------------------------
// The layout
// ---------------------------------------------------------------------------

pub open spec fn asn_tiny_count(b: Seq<u8>) -> nat {
    le_at(b, 16, 4)
}

pub open spec fn asn_seg4_count(b: Seq<u8>) -> nat {
    le_at(b, 20, 4)
}

pub open spec fn asn_seg6_count(b: Seq<u8>) -> nat {
    le_at(b, 24, 4)
}

pub open spec fn asn_tiny_off(b: Seq<u8>) -> nat {
    le_at(b, 40, 8)
}

pub open spec fn asn_seg4_off(b: Seq<u8>) -> nat {
    le_at(b, 48, 8)
}

pub open spec fn asn_seg6_off(b: Seq<u8>) -> nat {
    le_at(b, 56, 8)
}

pub open spec fn asn_str_off(b: Seq<u8>) -> nat {
    le_at(b, 88, 8)
}

/// The blob is long enough, carries the magic and the tiny flavor.
pub open spec fn asn_header_ok(b: Seq<u8>) -> bool {
    b.len() >= 104 && le_at(b, 0, 8) == ASNDB_MAGIC && b[8] == FLAVOR_TINY
}

/// Parsing reads no segment past the end of the blob.
pub open spec fn asn_parse_defined(b: Seq<u8>) -> bool {
    asn_header_ok(b) ==> {
        &&& (asn_seg4_count(b) == 0 || asn_seg4_off(b) + 8 * asn_seg4_count(b) <= b.len())
        &&& (asn_seg6_count(b) == 0 || asn_seg6_off(b) + 20 * asn_seg6_count(b) <= b.len())
    }
}

/// The IPv4 segment starts.
pub open spec fn asn_seg4_starts(b: Seq<u8>) -> Seq<int> {
    Seq::new(asn_seg4_count(b), |i: int| le_at(b, asn_seg4_off(b) + 8 * i, 4) as int)
}

/// The record index of IPv4 segment `i`.
pub open spec fn asn_seg4_idx(b: Seq<u8>, i: int) -> nat {
    le_at(b, asn_seg4_off(b) + 8 * i + 4, 4)
}

/// The IPv6 segment starts.
pub open spec fn asn_seg6_starts(b: Seq<u8>) -> Seq<int> {
    Seq::new(
        asn_seg6_count(b),
        |i: int|
            be_value(b.subrange(asn_seg6_off(b) + 20 * i, asn_seg6_off(b) + 20 * i + 16)) as int,
    )
}

/// The record index of IPv6 segment `i`.
pub open spec fn asn_seg6_idx(b: Seq<u8>, i: int) -> nat {
    le_at(b, asn_seg6_off(b) + 20 * i + 16, 4)
}

/// Both segment tables ascend by start, as the format promises.
pub open spec fn asn_tables_ascending(b: Seq<u8>) -> bool {
    ascending(asn_seg4_starts(b)) && ascending(asn_seg6_starts(b))
}

/// The record index of the segment that holds `ip`: the last segment
/// starting at or below it, unless none does or it belongs to no AS.
pub open spec fn asn_segment(b: Seq<u8>, ip: IpAddress) -> Option<nat> {
    let (p, idx) = match ip {
        IpAddress::V4(a) => {
            let p = upper_bound(asn_seg4_starts(b), a as int);
            (p, asn_seg4_idx(b, p - 1))
        },
        IpAddress::V6(a) => {
            let p = upper_bound(asn_seg6_starts(b), a as int);
            (p, asn_seg6_idx(b, p - 1))
        },
    };
    if p == 0 || idx == NO_ASN {
        None
    } else {
        Some(idx)
    }
}

/// The string at `offset` in the pool: empty for offset 0, for a length or
/// body past the end of the blob, and for bytes that are not UTF-8.
pub open spec fn asn_string(b: Seq<u8>, offset: nat) -> Seq<char> {
    let o = asn_str_off(b) + offset;
    if offset == 0 || o + 4 > b.len() {
        seq![]
    } else {
        let l = le_at(b, o as int, 4);
        let body = b.subrange(o + 4 as int, o + 4 + l as int);
        if o + 4 + l > b.len() || !valid_utf8(body) {
            seq![]
        } else {
            decode_utf8(body)
        }
    }
}

/// Reading the string at `offset` computes no offset past `usize::MAX`.
pub open spec fn asn_string_defined(b: Seq<u8>, offset: nat) -> bool {
    let o = asn_str_off(b) + offset;
    offset == 0 || (o + 4 <= usize::MAX && (o + 4 > b.len() || o + 4 + le_at(b, o as int, 4)
        <= usize::MAX))
}

/// Where record `idx` starts.
pub open spec fn asn_rec(b: Seq<u8>, idx: nat) -> int {
    (asn_tiny_off(b) + 24 * idx) as int
}

/// The NUL character.
pub open spec fn nul_pred() -> spec_fn(char) -> bool {
    |c: char| c == '\0'
}

/// The country code of a record: its two bytes as UTF-8 without trailing
/// NULs, or empty where they are not UTF-8.
pub open spec fn asn_country(b: Seq<u8>, r: int) -> Seq<char> {
    let two = b.subrange(r + 16, r + 18);
    if valid_utf8(two) {
        drop_back(decode_utf8(two), nul_pred())
    } else {
        seq![]
    }
}

/// Record `idx`, if there is one.
pub open spec fn asn_info(b: Seq<u8>, idx: nat) -> Option<AsnInfoView> {
    if idx >= asn_tiny_count(b) {
        None
    } else {
        let r = asn_rec(b, idx);
        let raw_name = asn_string(b, le_at(b, r + 4, 4));
        let company = asn_string(b, le_at(b, r + 8, 4));
        Some(
            AsnInfoView {
                asn: le_at(b, r, 4) as u32,
                name: first_token_spec(raw_name),
                company: company,
                website: asn_string(b, le_at(b, r + 12, 4)),
                provider: provider_spec(raw_name, company),
                country_code: asn_country(b, r),
                kind: kind_spec(b[r + 18]),
                info_type: info_type_spec(b[r + 19]),
                rir: rir_spec(b[r + 20]),
            },
        )
    }
}

/// Reading record `idx` stays inside the blob and its name is one the
/// brand cleanup is defined on.
pub open spec fn asn_info_defined(b: Seq<u8>, idx: nat) -> bool {
    idx >= asn_tiny_count(b) || {
        let r = asn_rec(b, idx);
        &&& r + 24 <= b.len()
        &&& asn_string_defined(b, le_at(b, r + 4, 4))
        &&& asn_string_defined(b, le_at(b, r + 8, 4))
        &&& asn_string_defined(b, le_at(b, r + 12, 4))
        &&& provider_defined(asn_string(b, le_at(b, r + 4, 4)))
    }
}

/// The AS of `ip`.
pub open spec fn asn_lookup(b: Seq<u8>, ip: IpAddress) -> Option<AsnInfoView> {
    match asn_segment(b, ip) {
        None => None,
        Some(idx) => asn_info(b, idx),
    }
}

/// The lookup of `ip` is defined.
pub open spec fn asn_lookup_defined(b: Seq<u8>, ip: IpAddress) -> bool {
    match asn_segment(b, ip) {
        None => true,
        Some(idx) => asn_info_defined(b, idx),
    }
}

/// IP → ASN database backed by `asndb-tiny.bin`.
pub struct Asndb {
    bytes: Vec<u8>,
    tiny_off: u64,
    tiny_count: u64,
    seg4: Vec<(u32, u32)>,
    seg6: Vec<(u128, u32)>,
    str_off: u64,
}

impl View for Asndb {
    type V = Seq<u8>;

    closed spec fn view(&self) -> Seq<u8> {
        self.bytes@
    }
}

impl Asndb {
    #[verifier::type_invariant]
    closed spec fn inv(&self) -> bool {
        let b = self.bytes@;
        &&& asn_header_ok(b)
        &&& asn_parse_defined(b)
        &&& self.tiny_off == asn_tiny_off(b)
        &&& self.tiny_count == asn_tiny_count(b)
        &&& self.str_off == asn_str_off(b)
        &&& self.seg4@.map_values(|v: (u32, u32)| v.0 as int) == asn_seg4_starts(b)
        &&& forall|i: int| 0 <= i < self.seg4@.len() ==> self.seg4@[i].1 == asn_seg4_idx(b, i)
        &&& self.seg6@.map_values(|v: (u128, u32)| v.0 as int) == asn_seg6_starts(b)
        &&& forall|i: int| 0 <= i < self.seg6@.len() ==> self.seg6@[i].1 == asn_seg6_idx(b, i)
    }

    /// Whether parsing the blob reads no segment past its end: where this
    /// is false, parsing is not defined.
    pub fn parse_defined(bytes: &Vec<u8>) -> (r: bool)
        ensures
            r == asn_parse_defined(bytes@),
    {
        if bytes.len() < HEADER_SIZE || u64le(bytes.as_slice(), 0) != ASNDB_MAGIC || bytes[8]
            != FLAVOR_TINY {
            return true;
        }
        let len = bytes.len() as u128;
        let n4 = u32le(bytes.as_slice(), 20) as u128;
        let n6 = u32le(bytes.as_slice(), 24) as u128;
        let off4 = u64le(bytes.as_slice(), 48) as u128;
        let off6 = u64le(bytes.as_slice(), 56) as u128;
        (n4 == 0 || off4 + 8 * n4 <= len) && (n6 == 0 || off6 + 20 * n6 <= len)
    }

    /// Parse an `asndb-tiny.bin` blob.
    pub fn parse(bytes: Vec<u8>) -> (r: Result<Asndb, DbError>)
        requires
            asn_parse_defined(bytes@),
        ensures
            r matches Err(e) ==> {
                if bytes@.len() < 104 {
                    e == DbError::AsndbTooSmall
                } else if le_at(bytes@, 0, 8) != ASNDB_MAGIC {
                    e == DbError::BadAsndbMagic
                } else {
                    e == DbError::WrongAsndbFlavor(bytes@[8])
                }
            },
            r is Ok <==> asn_header_ok(bytes@),
            r matches Ok(db) ==> db@ == bytes@,
    {
        if bytes.len() < HEADER_SIZE {
            return Err(DbError::AsndbTooSmall);
        }
        if u64le(&bytes, 0) != ASNDB_MAGIC {
            return Err(DbError::BadAsndbMagic);
        }
        if bytes[8] != FLAVOR_TINY {
            return Err(DbError::WrongAsndbFlavor(bytes[8]));
        }
        let ghost b = bytes@;
        let tiny_count = u32le(&bytes, 16) as u64;
        let seg4_count = u32le(&bytes, 20) as usize;
        let seg6_count = u32le(&bytes, 24) as usize;
        let tiny_off = u64le(&bytes, 40);
        let seg4_off = u64le(&bytes, 48);
        let seg6_off = u64le(&bytes, 56);
        let str_off = u64le(&bytes, 88);

        let mut seg4: Vec<(u32, u32)> = Vec::new();
        let mut i: usize = 0;
        while i < seg4_count
            invariant
                b == bytes@,
                seg4_count == asn_seg4_count(b),
                seg4_off == asn_seg4_off(b),
                seg4_count == 0 || seg4_off + 8 * seg4_count <= bytes.len(),
                i <= seg4_count,
                seg4@.len() == i,
                forall|j: int|
                    #![trigger seg4@[j]]
                    0 <= j < i ==> seg4@[j].0 == asn_seg4_starts(b)[j] && seg4@[j].1
                        == asn_seg4_idx(b, j),
            decreases seg4_count - i,
        {
            let o = seg4_off as usize + i * 8;
            let pair = (u32le(&bytes, o), u32le(&bytes, o + 4));
            proof {
                assert(o == asn_seg4_off(b) + 8 * i);
                assert(asn_seg4_starts(b)[i as int] == pair.0);
            }
            let ghost prev = seg4@;
            seg4.push(pair);
            proof {
                assert(seg4@[i as int] == pair);
                assert(pair.1 == asn_seg4_idx(b, i as int));
                assert forall|j: int| 0 <= j < i + 1 implies #[trigger] seg4@[j].0
                    == asn_seg4_starts(b)[j] && seg4@[j].1 == asn_seg4_idx(b, j) by {
                    if j < i {
                        assert(seg4@[j] == prev[j]);
                    }
                }
            }
            i = i + 1;
        }
        let mut seg6: Vec<(u128, u32)> = Vec::new();
        let mut i: usize = 0;
        while i < seg6_count
            invariant
                b == bytes@,
                seg6_count == asn_seg6_count(b),
                seg6_off == asn_seg6_off(b),
                seg6_count == 0 || seg6_off + 20 * seg6_count <= bytes.len(),
                i <= seg6_count,
                seg6@.len() == i,
                forall|j: int|
                    #![trigger seg6@[j]]
                    0 <= j < i ==> seg6@[j].0 == asn_seg6_starts(b)[j] && seg6@[j].1
                        == asn_seg6_idx(b, j),
            decreases seg6_count - i,
        {
            let o = seg6_off as usize + i * 20;
            let start = u128_be(&bytes, o);
            let asn_idx = u32le(&bytes, o + 16);
            proof {
                assert(o == asn_seg6_off(b) + 20 * i);
                assert(asn_seg6_starts(b)[i as int] == start);
            }
            let ghost prev = seg6@;
            seg6.push((start, asn_idx));
            proof {
                assert(seg6@[i as int] == (start, asn_idx));
                assert(asn_idx == asn_seg6_idx(b, i as int));
                assert forall|j: int| 0 <= j < i + 1 implies #[trigger] seg6@[j].0
                    == asn_seg6_starts(b)[j] && seg6@[j].1 == asn_seg6_idx(b, j) by {
                    if j < i {
                        assert(seg6@[j] == prev[j]);
                    }
                }
            }
            i = i + 1;
        }
        proof {
            assert(seg4@.map_values(|v: (u32, u32)| v.0 as int) =~= asn_seg4_starts(b)) by {
                assert forall|j: int| 0 <= j < seg4@.len() implies seg4@.map_values(
                    |v: (u32, u32)| v.0 as int,
                )[j] == asn_seg4_starts(b)[j] by {
                    assert(seg4@[j].0 == asn_seg4_starts(b)[j]);
                }
            }
            assert(seg6@.map_values(|v: (u128, u32)| v.0 as int) =~= asn_seg6_starts(b)) by {
                assert forall|j: int| 0 <= j < seg6@.len() implies seg6@.map_values(
                    |v: (u128, u32)| v.0 as int,
                )[j] == asn_seg6_starts(b)[j] by {
                    assert(seg6@[j].0 == asn_seg6_starts(b)[j]);
                }
            }
        }
        Ok(Asndb { bytes, tiny_off, tiny_count, seg4, seg6, str_off })
    }

    /// Whether both segment tables ascend by start.
    pub fn tables_ascending(&self) -> (r: bool)
        ensures
            r == asn_tables_ascending(self@),
    {
        proof {
            use_type_invariant(self);
        }
        is_ascending_pairs_u32(self.seg4.as_slice()) && is_ascending_pairs_u128(
            self.seg6.as_slice(),
        )
    }

    /// The record index of the segment that holds `ip`.
    fn segment(&self, ip: IpAddress) -> (r: Option<u32>)
        requires
            asn_tables_ascending(self@),
        ensures
            r matches Some(i) ==> asn_segment(self@, ip) == Some(i as nat),
            r is None ==> asn_segment(self@, ip) is None,
    {
        proof {
            use_type_invariant(self);
        }
        match ip {
            IpAddress::V4(a) => self.lookup_v4(a),
            IpAddress::V6(a) => self.lookup_v6(a),
        }
    }

    fn lookup_v4(&self, ip: u32) -> (r: Option<u32>)
        requires
            asn_tables_ascending(self@),
        ensures
            r matches Some(i) ==> asn_segment(self@, IpAddress::V4(ip)) == Some(i as nat),
            r is None ==> asn_segment(self@, IpAddress::V4(ip)) is None,
    {
        proof {
            use_type_invariant(self);
        }
        let pos = partition_point_pairs_u32(self.seg4.as_slice(), ip);
        if pos == 0 {
            return None;
        }
        let idx = self.seg4[pos - 1].1;
        if idx == NO_ASN {
            None
        } else {
            Some(idx)
        }
    }

    fn lookup_v6(&self, ip: u128) -> (r: Option<u32>)
        requires
            asn_tables_ascending(self@),
        ensures
            r matches Some(i) ==> asn_segment(self@, IpAddress::V6(ip)) == Some(i as nat),
            r is None ==> asn_segment(self@, IpAddress::V6(ip)) is None,
    {
        proof {
            use_type_invariant(self);
        }
        let pos = partition_point_pairs_u128(self.seg6.as_slice(), ip);
        if pos == 0 {
            return None;
        }
        let idx = self.seg6[pos - 1].1;
        if idx == NO_ASN {
            None
        } else {
            Some(idx)
        }
    }

    /// The string at `offset` of the pool.
    fn string_at(&self, offset: u32) -> (r: &str)
        requires
            asn_string_defined(self@, offset as nat),
        ensures
            r@ == asn_string(self@, offset as nat),
    {
        proof {
            use_type_invariant(self);
        }
        proof {
            reveal_strlit("");
        }
        let blen = self.bytes.len();
        if offset == 0 {
            return "";
        }
        let o = self.str_off as usize + offset as usize;
        if o + 4 > self.bytes.len() {
            return "";
        }
        let len = u32le(&self.bytes, o) as usize;
        let start = o + 4;
        if start + len > self.bytes.len() {
            return "";
        }
        match str_from_utf8(&self.bytes.as_slice()[start..start + len]) {
            Some(s) => s,
            None => "",
        }
    }

    /// The country code of the record at `r`.
    fn country_at(&self, r: usize) -> (s: String)
        requires
            r + 24 <= self@.len(),
        ensures
            s@ == asn_country(self@, r as int),
    {
        proof {
            use_type_invariant(self);
        }
        let len = self.bytes.len();
        let two = &self.bytes.as_slice()[r + 16..r + 18];
        match str_from_utf8(two) {
            Some(text) => {
                let v = to_chars(text);
                let mut n = v.len();
                proof {
                    assert(v@.take(n as int) =~= v@);
                }
                while n > 0 && v[n - 1] == '\0'
                    invariant
                        n <= v@.len(),
                        drop_back(v@, nul_pred()) == drop_back(v@.take(n as int), nul_pred()),
                    decreases n,
                {
                    proof {
                        assert(v@.take(n as int).drop_last() =~= v@.take(n - 1));
                    }
                    n = n - 1;
                }
                let mut out: Vec<char> = Vec::new();
                let mut i: usize = 0;
                while i < n
                    invariant
                        i <= n <= v@.len(),
                        out@ == v@.take(i as int),
                    decreases n - i,
                {
                    out.push(v[i]);
                    proof {
                        assert(v@.take(i + 1) =~= v@.take(i as int).push(v@[i as int]));
                    }
                    i = i + 1;
                }
                string_from_chars(&out)
            },
            None => String::new(),
        }
    }

    /// Record `idx`, if there is one.
    fn info_at(&self, idx: u32) -> (r: Option<AsnInfo>)
        requires
            asn_info_defined(self@, idx as nat),
        ensures
            match r {
                None => asn_info(self@, idx as nat) is None,
                Some(i) => asn_info(self@, idx as nat) == Some(i@),
            },
    {
        proof {
            use_type_invariant(self);
        }
        if idx as u64 >= self.tiny_count {
            return None;
        }
        let len = self.bytes.len();
        let off = (self.tiny_off + idx as u64 * TINY_REC_SIZE) as usize;
        let asn = u32le(&self.bytes, off);
        let raw_name = self.string_at(u32le(&self.bytes, off + 4));
        let company_str = self.string_at(u32le(&self.bytes, off + 8));
        let company = company_str.to_owned();
        let website = self.string_at(u32le(&self.bytes, off + 12)).to_owned();
        let provider = provider(raw_name, company_str);
        let name = split_first_token(raw_name);
        let country_code = self.country_at(off);
        Some(
            AsnInfo {
                asn,
                name,
                company,
                website,
                provider,
                country_code,
                kind: kind_name(self.bytes[off + 18]),
                info_type: info_type_name(self.bytes[off + 19]),
                rir: rir_name(self.bytes[off + 20]),
            },
        )
    }

    /// Whether the lookup of `ip` reads inside the blob and meets a name
    /// the brand cleanup is defined on.
    pub fn lookup_defined(&self, ip: IpAddress) -> (r: bool)
        requires
            asn_tables_ascending(self@),
        ensures
            r == asn_lookup_defined(self@, ip),
    {
        proof {
            use_type_invariant(self);
        }
        let idx = match self.segment(ip) {
            None => return true,
            Some(i) => i,
        };
        if idx as u64 >= self.tiny_count {
            return true;
        }
        let len = self.bytes.len();
        let r = self.tiny_off as u128 + idx as u128 * 24;
        if r + 24 > len as u128 {
            return false;
        }
        let r = r as usize;
        let n_off = u32le(&self.bytes, r + 4);
        let c_off = u32le(&self.bytes, r + 8);
        let w_off = u32le(&self.bytes, r + 12);
        if !self.string_defined(n_off) || !self.string_defined(c_off) || !self.string_defined(
            w_off,
        ) {
            return false;
        }
        provider_is_defined(self.string_at(n_off))
    }

    /// Whether reading the string at `offset` computes no offset past
    /// `usize::MAX`.
    fn string_defined(&self, offset: u32) -> (r: bool)
        ensures
            r == asn_string_defined(self@, offset as nat),
    {
        proof {
            use_type_invariant(self);
        }
        if offset == 0 {
            return true;
        }
        let o = self.str_off as u128 + offset as u128;
        if o + 4 > usize::MAX as u128 {
            return false;
        }
        if o + 4 > self.bytes.len() as u128 {
            return true;
        }
        let l = u32le(&self.bytes, o as usize) as u128;
        o + 4 + l <= usize::MAX as u128
    }

    /// Reverse-lookup an IP: the AS whose segment holds it, or `None` if the
    /// IP is in an unassigned segment or outside the known address space.
    pub fn lookup(&self, ip: IpAddress) -> (r: Option<AsnInfo>)
        requires
            asn_tables_ascending(self@),
            asn_lookup_defined(self@, ip),
        ensures
            match r {
                None => asn_lookup(self@, ip) is None,
                Some(i) => asn_lookup(self@, ip) == Some(i@),
            },
    {
        match self.segment(ip) {
            None => None,
            Some(idx) => self.info_at(idx),
        }
    }
}

/// A looked-up AS is read from the record of the segment holding the
/// address: its number from bytes 0..4, its kind from byte 18, its info
/// type from byte 19 and its registry from byte 20; and every segment whose
/// record exists gives an AS.
pub proof fn law_asn_record_bytes(b: Seq<u8>, ip: IpAddress)
    ensures
        asn_lookup(b, ip) matches Some(v) ==> asn_segment(b, ip) matches Some(idx) && v.asn
            == le_at(b, asn_rec(b, idx), 4) as u32 && v.kind == kind_spec(b[asn_rec(b, idx) + 18])
            && v.info_type == info_type_spec(b[asn_rec(b, idx) + 19]) && v.rir == rir_spec(
            b[asn_rec(b, idx) + 20],
        ),
        asn_lookup(b, ip) matches Some(v) ==> asn_segment(b, ip) matches Some(idx) && v.company
            == asn_string(b, le_at(b, asn_rec(b, idx) + 8, 4)) && v.website == asn_string(
            b,
            le_at(b, asn_rec(b, idx) + 12, 4),
        ) && v.country_code == asn_country(b, asn_rec(b, idx)),
        asn_segment(b, ip) matches Some(idx) && idx < asn_tiny_count(b) ==> asn_lookup(b, ip) is Some,
{
}

/// An IPv4 address belongs to the last segment starting at or below it:
/// where segment `k` starts at or below `a` and the next one (if any)
/// above it, the address gets that segment's record, or none where the
/// segment belongs to no AS.
pub proof fn law_asn_v4_last_segment(b: Seq<u8>, a: u32, k: int)
    requires
        ascending(asn_seg4_starts(b)),
        0 <= k < asn_seg4_starts(b).len(),
        asn_seg4_starts(b)[k] <= a,
        k + 1 == asn_seg4_starts(b).len() || asn_seg4_starts(b)[k + 1] > a,
    ensures
        asn_segment(b, IpAddress::V4(a)) == if asn_seg4_idx(b, k) == NO_ASN {
            None
        } else {
            Some(asn_seg4_idx(b, k))
        },
{
    let st = asn_seg4_starts(b);
    assert forall|j: int| 0 <= j < k + 1 implies st[j] <= a by {
        assert(st[j] <= st[k]);
    }
    assert forall|j: int| k + 1 <= j < st.len() implies st[j] > a by {
        assert(st[k + 1] <= st[j]);
    }
    assert(splits_at(st, a as int, k + 1));
    lemma_split_is_upper_bound(st, a as int, k + 1);
}

/// An IPv6 address belongs to the last segment starting at or below it,
/// as for IPv4.
pub proof fn law_asn_v6_last_segment(b: Seq<u8>, a: u128, k: int)
    requires
        ascending(asn_seg6_starts(b)),
        0 <= k < asn_seg6_starts(b).len(),
        asn_seg6_starts(b)[k] <= a,
        k + 1 == asn_seg6_starts(b).len() || asn_seg6_starts(b)[k + 1] > a,
    ensures
        asn_segment(b, IpAddress::V6(a)) == if asn_seg6_idx(b, k) == NO_ASN {
            None
        } else {
            Some(asn_seg6_idx(b, k))
        },
{
    let st = asn_seg6_starts(b);
    assert forall|j: int| 0 <= j < k + 1 implies st[j] <= a by {
        assert(st[j] <= st[k]);
    }
    assert forall|j: int| k + 1 <= j < st.len() implies st[j] > a by {
        assert(st[k + 1] <= st[j]);
    }
    assert(splits_at(st, a as int, k + 1));
    lemma_split_is_upper_bound(st, a as int, k + 1);
}

/// An address below every segment start belongs to no AS.
pub proof fn law_asn_below_segments(b: Seq<u8>, ip: IpAddress)
    requires
        asn_tables_ascending(b),
        match ip {
            IpAddress::V4(a) => asn_seg4_starts(b).len() == 0 || asn_seg4_starts(b)[0] > a,
            IpAddress::V6(a) => asn_seg6_starts(b).len() == 0 || asn_seg6_starts(b)[0] > a,
        },
    ensures
        asn_segment(b, ip) is None,
{
    let st = match ip {
        IpAddress::V4(_) => asn_seg4_starts(b),
        IpAddress::V6(_) => asn_seg6_starts(b),
    };
    let x = match ip {
        IpAddress::V4(a) => a as int,
        IpAddress::V6(a) => a as int,
    };
    assert forall|j: int| 0 <= j < st.len() implies st[j] > x by {
        assert(st[0] <= st[j]);
    }
    assert(splits_at(st, x, 0));
    lemma_split_is_upper_bound(st, x, 0);
}

} // verus!
