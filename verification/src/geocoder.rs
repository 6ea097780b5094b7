//! `(lat, lon)` → place over the genom `geo.bin` format.
//!
//! Layout: a 64-byte header (`GEO1`, then the offsets of the string table,
//! the country-code table, the city grid, the city area and its length,
//! the postal directory and the postal area). The city grid is a varint
//! list of `(cell, offset)` deltas into the city area; each city cell is a
//! varint count and then, per city, zigzag latitude and longitude deltas
//! (millionths of a degree) and the indices of its name, region, district,
//! region code, time zone and country. Each postal country has a tuple
//! table, a postal-code string table and a grid of cells of postal points.
//!
//! Coordinates come in as millionths of a degree together with the grid
//! cells that hold them; the nearest city is searched in squares of cells
//! of growing radius around that cell.

use vstd::prelude::*;
use vstd::utf8::{valid_utf8, decode_utf8};

use crate::search::ascending;
use crate::text::str_from_utf8;
use crate::wire::{
    le_at, u32le, u16le, varint, varint_end, varint_value, varint_readable, zigzag, zigzag_value,
    read_varints,
};
use crate::DbError;
use crate::countries::{enrich, place_strings, place_zone, Place, CLOCK_MAX_SECS};

verus! {

/// Columns of the city grid (tenths of a degree of longitude).
pub const GRID_LON: i32 = 3600;

/// Rows of the city grid (tenths of a degree of latitude).
pub const GRID_LAT: i32 = 1800;

/// Columns of the postal grid (hundredths of a degree of longitude).
pub const PGRID_LON: i32 = 36000;

/// Rows of the postal grid (hundredths of a degree of latitude).
pub const PGRID_LAT: i32 = 18000;

// ---------------------------------------------------------------------------
// Cell lists
// ---------------------------------------------------------------------------

/// Prefixes a decoded list, keeping `None` (undecodable) as it is.
pub open spec fn prepend<T>(pre: Seq<T>, o: Option<(Seq<T>, int)>) -> Option<(Seq<T>, int)> {
    match o {
        None => None,
        Some(x) => Some((pre + x.0, x.1)),
    }
}

/// `n` `(cell, offset)` entries from `p`, each two varints of deltas added
/// to the running `cell` and `off` (each delta cut to 32 bits); `None`
/// where a varint is unreadable or a running value passes `u32::MAX`.
pub open spec fn decode_cells(d: Seq<u8>, p: int, n: nat, cell: nat, off: nat) -> Option<
    (Seq<(u32, u32)>, int),
>
    decreases n,
{
    if n == 0 {
        Some((seq![], p))
    } else if varint_end(d, p) is None {
        None
    } else if varint_end(d, varint_end(d, p)->0) is None {
        None
    } else {
        let e1 = varint_end(d, p)->0;
        let e2 = varint_end(d, e1)->0;
        let c2 = cell + varint_value(d, p) % 0x1_0000_0000;
        let o2 = off + varint_value(d, e1) % 0x1_0000_0000;
        if c2 > u32::MAX || o2 > u32::MAX {
            None
        } else {
            prepend(seq![(c2 as u32, o2 as u32)], decode_cells(d, e2, (n - 1) as nat, c2, o2))
        }
    }
}

proof fn lemma_prepend_assoc<T>(a: Seq<T>, b: Seq<T>, o: Option<(Seq<T>, int)>)
    ensures
        prepend(a, prepend(b, o)) == prepend(a + b, o),
{
    match o {
        None => {},
        Some(x) => {
            assert(a + (b + x.0) =~= (a + b) + x.0);
        },
    }
}

proof fn lemma_prepend_empty<T>(o: Option<(Seq<T>, int)>)
    ensures
        prepend(Seq::<T>::empty(), o) == o,
{
    match o {
        None => {},
        Some(x) => {
            assert(Seq::<T>::empty() + x.0 =~= x.0);
        },
    }
}

/// Decodes `n` cell entries from `p`, or `None` where the spec has none.
fn decode_cells_exec(d: &[u8], p: usize, n: u64) -> (r: Option<(Vec<(u32, u32)>, usize)>)
    requires
        p <= d@.len(),
    ensures
        r matches Some(x) ==> x.1 <= d@.len(),
        match r {
            None => decode_cells(d@, p as int, n as nat, 0, 0) is None,
            Some(x) => decode_cells(d@, p as int, n as nat, 0, 0) == Some((x.0@, x.1 as int)),
        },
{
    let mut out: Vec<(u32, u32)> = Vec::new();
    let mut q = p;
    let mut cell: u32 = 0;
    let mut off: u32 = 0;
    let mut k: u64 = 0;
    proof {
        lemma_prepend_empty(decode_cells(d@, p as int, n as nat, 0, 0));
    }
    while k < n
        invariant
            k <= n,
            q <= d@.len(),
            decode_cells(d@, p as int, n as nat, 0, 0) == prepend(
                out@,
                decode_cells(d@, q as int, (n - k) as nat, cell as nat, off as nat),
            ),
        decreases n - k,
    {
        if !varint_readable(d, q) {
            return None;
        }
        let (dc, k1) = varint(d, q);
        let dl = d.len();
        let e1 = q + k1;
        if !varint_readable(d, e1) {
            return None;
        }
        let (deo, k2) = varint(d, e1);
        let e2 = e1 + k2;
        let dc32 = (dc % 0x1_0000_0000) as u32;
        let deo32 = (deo % 0x1_0000_0000) as u32;
        if cell > u32::MAX - dc32 || off > u32::MAX - deo32 {
            return None;
        }
        cell = cell + dc32;
        off = off + deo32;
        proof {
            lemma_prepend_assoc(
                out@,
                seq![(cell, off)],
                decode_cells(d@, e2 as int, (n - k - 1) as nat, cell as nat, off as nat),
            );
            assert(out@.push((cell, off)) =~= out@ + seq![(cell, off)]);
        }
        out.push((cell, off));
        q = e2;
        k = k + 1;
    }
    proof {
        assert(out@ + Seq::<(u32, u32)>::empty() =~= out@);
    }
    Some((out, q))
}

// ---------------------------------------------------------------------------
// The layout
// ---------------------------------------------------------------------------

/// A postal country as parsing finds it.
pub struct PostalModel {
    pub cc: u16,
    pub ps_offsets_off: int,
    pub ps_body_off: int,
    pub cell_dir: Seq<(u32, u32)>,
    pub body_off: int,
}

/// What parsing finds in a blob.
pub struct GcModel {
    pub str_offsets_off: int,
    pub str_count: int,
    pub str_body_off: int,
    pub cc_off: int,
    pub grid: Seq<(u32, u32)>,
    pub cities_start: int,
    pub cities_end: int,
    pub postal: Seq<PostalModel>,
}

/// The blob is long enough and carries the `GEO1` magic.
pub open spec fn gc_header_ok(b: Seq<u8>) -> bool {
    &&& b.len() >= 64
    &&& b[0] == 0x47u8
    &&& b[1] == 0x45u8
    &&& b[2] == 0x4fu8
    &&& b[3] == 0x31u8
}

/// The postal country whose section runs from `start` to `end`.
pub open spec fn gc_pcountry(b: Seq<u8>, cc: u16, start: int, end: int) -> Option<PostalModel> {
    if !(0 <= start <= end <= b.len()) {
        None
    } else {
        let sec = b.subrange(start, end);
        let n = sec.len() as int;
        if 4 > n {
            None
        } else {
            let p1: int = 4 + 12 * (le_at(sec, 0, 4) as int);
            if p1 + 4 > n {
                None
            } else {
                let ps_count = le_at(sec, p1, 4) as int;
                let p2: int = p1 + 4;
                let p3: int = p2 + 4 * (ps_count + 1);
                if p2 + 4 * ps_count + 4 > n {
                    None
                } else {
                    let body_len = le_at(sec, p2 + 4 * ps_count, 4) as int;
                    let p4: int = p3 + body_len;
                    if varint_end(sec, p4) is None {
                        None
                    } else {
                        let cell_count = varint_value(sec, p4);
                        match decode_cells(sec, varint_end(sec, p4)->0, cell_count, 0, 0) {
                            None => None,
                            Some(x) => Some(
                                PostalModel {
                                    cc,
                                    ps_offsets_off: start + p2,
                                    ps_body_off: start + p3,
                                    cell_dir: x.0,
                                    body_off: start + x.1,
                                },
                            ),
                        }
                    }
                }
            }
        }
    }
}

/// The postal directory entries `j..count` that start at `cursor`.
pub open spec fn gc_postal_from(b: Seq<u8>, off_postal: int, cursor: int, left: nat) -> Option<
    Seq<PostalModel>,
>
    decreases left,
{
    if left == 0 {
        Some(seq![])
    } else if cursor + 12 > b.len() {
        None
    } else {
        let cc = le_at(b, cursor, 2) as u16;
        let start = off_postal + le_at(b, cursor + 4, 4);
        let end = off_postal + le_at(b, cursor + 8, 4);
        match gc_pcountry(b, cc, start, end) {
            None => None,
            Some(pc) => match gc_postal_from(b, off_postal, cursor + 12, (left - 1) as nat) {
                None => None,
                Some(rest) => Some(seq![pc] + rest),
            },
        }
    }
}

/// What parsing finds in the blob, or `None` where a read fails hard.
pub open spec fn gc_parse(b: Seq<u8>) -> Option<GcModel> {
    let off_str = le_at(b, 8, 4) as int;
    let off_cc = le_at(b, 16, 4) as int;
    let off_grid = le_at(b, 24, 4) as int;
    let off_cities = le_at(b, 32, 4) as int;
    let len_cities = le_at(b, 36, 4) as int;
    let off_pdir = le_at(b, 40, 4) as int;
    let off_postal = le_at(b, 48, 4) as int;
    if off_str + 4 > b.len() || off_grid + 4 > b.len() || off_pdir + 4 > b.len() {
        None
    } else {
        let str_count = le_at(b, off_str, 4) as int;
        match decode_cells(b, off_grid + 4, le_at(b, off_grid, 4), 0, 0) {
            None => None,
            Some(g) => match gc_postal_from(b, off_postal, off_pdir + 4, le_at(b, off_pdir, 4)) {
                None => None,
                Some(postal) => Some(
                    GcModel {
                        str_offsets_off: off_str + 4,
                        str_count,
                        str_body_off: off_str + 4 + 4 * (str_count + 1),
                        cc_off: off_cc + 4,
                        grid: g.0,
                        cities_start: off_cities,
                        cities_end: off_cities + len_cities,
                        postal,
                    },
                ),
            },
        }
    }
}

/// Parsing the blob fails hard nowhere.
pub open spec fn gc_parse_defined(b: Seq<u8>) -> bool {
    gc_header_ok(b) ==> gc_parse(b) is Some
}

/// Prefixes a list of postal countries, keeping `None` as it is.
pub open spec fn prepend_pc(pre: Seq<PostalModel>, o: Option<Seq<PostalModel>>) -> Option<
    Seq<PostalModel>,
> {
    match o {
        None => None,
        Some(r) => Some(pre + r),
    }
}

/// A postal country of a parsed geocoder.
pub struct PostalCountry {
    cc: u16,
    ps_offsets_off: u64,
    ps_body_off: u64,
    cell_dir: Vec<(u32, u32)>,
    body_off: u64,
}

impl PostalCountry {
    pub closed spec fn model(&self) -> PostalModel {
        PostalModel {
            cc: self.cc,
            ps_offsets_off: self.ps_offsets_off as int,
            ps_body_off: self.ps_body_off as int,
            cell_dir: self.cell_dir@,
            body_off: self.body_off as int,
        }
    }
}

/// Parses the postal country whose section runs from `start` to `end`.
fn parse_pcountry(d: &[u8], cc: u16, start: usize, end: usize) -> (r: Option<PostalCountry>)
    ensures
        match r {
            None => gc_pcountry(d@, cc, start as int, end as int) is None,
            Some(pc) => gc_pcountry(d@, cc, start as int, end as int) == Some(pc.model()),
        },
{
    if !(start <= end && end <= d.len()) {
        return None;
    }
    let sec = &d[start..end];
    let n = sec.len() as u64;
    if n < 4 {
        return None;
    }
    let tuple_count = u32le(sec, 0) as u64;
    let p1 = 4 + 12 * tuple_count;
    if p1 > n || n - p1 < 4 {
        return None;
    }
    let ps_count = u32le(sec, p1 as usize) as u64;
    let p2 = p1 + 4;
    let p3 = p2 + 4 * (ps_count + 1);
    if 4 * ps_count > n || p2 > n - 4 * ps_count || n - p2 - 4 * ps_count < 4 {
        return None;
    }
    let body_len = u32le(sec, (p2 + 4 * ps_count) as usize) as u64;
    let p4 = p3 + body_len;
    if p4 >= n {
        return None;
    }
    if !varint_readable(sec, p4 as usize) {
        return None;
    }
    let (cell_count, k) = varint(sec, p4 as usize);
    match decode_cells_exec(sec, p4 as usize + k, cell_count) {
        None => None,
        Some((cell_dir, p5)) => Some(
            PostalCountry {
                cc,
                ps_offsets_off: start as u64 + p2,
                ps_body_off: start as u64 + p3,
                cell_dir,
                body_off: start as u64 + p5 as u64,
            },
        ),
    }
}

/// The place of one hit of the city search.
#[derive(Clone, Copy, Debug, PartialEq, Eq, Structural)]
pub struct CityHit {
    pub lat: i64,
    pub lon: i64,
    pub name_i: u32,
    pub a1_i: u32,
    pub a2_i: u32,
    pub a1c_i: u32,
    pub tz_i: u32,
    pub cc: u16,
}

/// Reverse-geocoder backed by a genom `geo.bin`.
pub struct Geocoder {
    bytes: Vec<u8>,
    str_offsets_off: u64,
    str_count: u64,
    str_body_off: u64,
    cc_off: u64,
    grid: Vec<(u32, u32)>,
    cities_range: (u64, u64),
    postal: Vec<PostalCountry>,
}

impl View for Geocoder {
    type V = Seq<u8>;

    closed spec fn view(&self) -> Seq<u8> {
        self.bytes@
    }
}

/// The models of parsed postal countries.
pub closed spec fn pc_models(v: Seq<PostalCountry>) -> Seq<PostalModel> {
    v.map_values(|p: PostalCountry| p.model())
}

impl Geocoder {
    /// What parsing found in the blob.
    pub closed spec fn model(&self) -> GcModel {
        GcModel {
            str_offsets_off: self.str_offsets_off as int,
            str_count: self.str_count as int,
            str_body_off: self.str_body_off as int,
            cc_off: self.cc_off as int,
            grid: self.grid@,
            cities_start: self.cities_range.0 as int,
            cities_end: self.cities_range.1 as int,
            postal: pc_models(self.postal@),
        }
    }

    #[verifier::type_invariant]
    closed spec fn inv(&self) -> bool {
        &&& gc_header_ok(self.bytes@)
        &&& gc_parse(self.bytes@) == Some(self.model())
    }

    /// Parses the blob, or `None` where a read fails hard.
    #[verifier::loop_isolation(false)]
    fn parse_model(bytes: Vec<u8>) -> (r: Option<Geocoder>)
        requires
            gc_header_ok(bytes@),
        ensures
            match r {
                None => gc_parse(bytes@) is None,
                Some(g) => g@ == bytes@,
            },
    {
        let ghost b = bytes@;
        let len = bytes.len();
        let off_str = u32le(&bytes, 8) as usize;
        let off_cc = u32le(&bytes, 16) as u64;
        let off_grid = u32le(&bytes, 24) as usize;
        let off_cities = u32le(&bytes, 32) as u64;
        let len_cities = u32le(&bytes, 36) as u64;
        let off_pdir = u32le(&bytes, 40) as usize;
        let off_postal = u32le(&bytes, 48) as usize;
        if off_str > len - 4 || off_grid > len - 4 || off_pdir > len - 4 {
            return None;
        }
        let str_count = u32le(&bytes, off_str) as u64;
        let str_offsets_off = off_str as u64 + 4;
        let str_body_off = str_offsets_off + 4 * (str_count + 1);
        let cc_off = off_cc + 4;

        let n_grid = u32le(&bytes, off_grid) as u64;
        let grid = match decode_cells_exec(&bytes, off_grid + 4, n_grid) {
            None => return None,
            Some((g, _)) => g,
        };

        let pdir_count = u32le(&bytes, off_pdir) as usize;
        let mut postal: Vec<PostalCountry> = Vec::new();
        let mut cursor = off_pdir + 4;
        let mut j: usize = 0;
        proof {
            assert(pc_models(postal@) =~= Seq::<PostalModel>::empty());
            let o = gc_postal_from(b, off_postal as int, cursor as int, pdir_count as nat);
            if o is Some {
                assert(pc_models(postal@) + o->0 =~= o->0);
            }
        }
        while j < pdir_count
            invariant
                j <= pdir_count,
                b == bytes@,
                len == b.len(),
                cursor == off_pdir + 4 + 12 * j,
                off_postal < 0x1_0000_0000,
                gc_postal_from(b, off_postal as int, off_pdir + 4, pdir_count as nat)
                    == prepend_pc(
                    pc_models(postal@),
                    gc_postal_from(b, off_postal as int, cursor as int, (pdir_count - j) as nat),
                ),
            decreases pdir_count - j,
        {
            if cursor > len || len - cursor < 12 {
                return None;
            }
            let cc = u16le(&bytes, cursor);
            let start = off_postal as u64 + u32le(&bytes, cursor + 4) as u64;
            let end = off_postal as u64 + u32le(&bytes, cursor + 8) as u64;
            if end > len as u64 || start > end {
                proof {
                    assert(gc_pcountry(b, cc, start as int, end as int) is None);
                }
                return None;
            }
            let pc = match parse_pcountry(&bytes, cc, start as usize, end as usize) {
                None => return None,
                Some(pc) => pc,
            };
            let ghost before = pc_models(postal@);
            let ghost m = pc.model();
            postal.push(pc);
            proof {
                assert(pc_models(postal@) =~= before.push(m)) by {
                    reveal(pc_models);
                }
                let rest = gc_postal_from(
                    b,
                    off_postal as int,
                    cursor + 12,
                    (pdir_count - j - 1) as nat,
                );
                if rest is Some {
                    assert(before + (seq![m] + rest->0) =~= before.push(m) + rest->0);
                }
            }
            cursor = cursor + 12;
            j = j + 1;
        }
        proof {
            assert(pc_models(postal@) + Seq::<PostalModel>::empty() =~= pc_models(postal@));
        }
        let g = Geocoder {
            bytes,
            str_offsets_off,
            str_count,
            str_body_off,
            cc_off,
            grid,
            cities_range: (off_cities, off_cities + len_cities),
            postal,
        };
        Some(g)
    }

    /// Whether parsing `bytes` fails hard nowhere.
    pub fn parse_defined(bytes: &Vec<u8>) -> (r: bool)
        ensures
            r == gc_parse_defined(bytes@),
    {
        if bytes.len() < 64 || bytes[0] != 0x47u8 || bytes[1] != 0x45u8 || bytes[2] != 0x4fu8
            || bytes[3] != 0x31u8 {
            return true;
        }
        let copy = bytes.clone();
        proof {
            assert(copy@ == bytes@);
        }
        match Self::parse_model(copy) {
            Some(g) => {
                proof {
                    use_type_invariant(&g);
                }
                true
            },
            None => false,
        }
    }

    /// Parse a `geo.bin` blob into a queryable database.
    pub fn parse(bytes: Vec<u8>) -> (r: Result<Geocoder, DbError>)
        requires
            gc_parse_defined(bytes@),
        ensures
            r is Err <==> !gc_header_ok(bytes@),
            r matches Err(e) ==> e == DbError::BadGeocoder,
            r matches Ok(g) ==> g@ == bytes@ && g.model() == gc_parse(bytes@)->0,
    {
        if bytes.len() < 64 || bytes[0] != 0x47u8 || bytes[1] != 0x45u8 || bytes[2] != 0x4fu8
            || bytes[3] != 0x31u8 {
            return Err(DbError::BadGeocoder);
        }
        match Self::parse_model(bytes) {
            Some(g) => {
                proof {
                    use_type_invariant(&g);
                }
                Ok(g)
            },
            None => Err(DbError::BadGeocoder),
        }
    }
}

// ---------------------------------------------------------------------------
// Cell scans
// ---------------------------------------------------------------------------

pub open spec fn fits_i64(x: int) -> bool {
    i64::MIN <= x <= i64::MAX
}

/// The squared distance of `(lat, lon)` to `(lat_q, lon_q)`, if each step
/// of it fits in an `i64`.
pub open spec fn dist2(lat: int, lon: int, lat_q: int, lon_q: int) -> Option<int> {
    let dx = lat - lat_q;
    let dy = lon - lon_q;
    if fits_i64(dx) && fits_i64(dy) && fits_i64(dx * dx) && fits_i64(dy * dy) && fits_i64(
        dx * dx + dy * dy,
    ) {
        Some(dx * dx + dy * dy)
    } else {
        None
    }
}

/// The distance a scan compares is the squared planar distance: whatever
/// it gives is `(lat - lat_q)² + (lon - lon_q)²`, and it gives it wherever
/// the differences, their squares and the sum fit in an `i64`.
pub proof fn law_dist2_is_squared_distance(lat: int, lon: int, lat_q: int, lon_q: int)
    ensures
        dist2(lat, lon, lat_q, lon_q) matches Some(d) ==> d == (lat - lat_q) * (lat - lat_q) + (lon
            - lon_q) * (lon - lon_q),
        fits_i64(lat - lat_q) && fits_i64(lon - lon_q) && fits_i64((lat - lat_q) * (lat - lat_q))
            && fits_i64((lon - lon_q) * (lon - lon_q)) && fits_i64(
            (lat - lat_q) * (lat - lat_q) + (lon - lon_q) * (lon - lon_q),
        ) ==> dist2(lat, lon, lat_q, lon_q) is Some,
{
}

/// Keeps the current best unless the candidate is strictly nearer.
pub open spec fn better<T>(best: Option<(i64, T)>, d2: i64, hit: T) -> Option<(i64, T)> {
    match best {
        None => Some((d2, hit)),
        Some(b) => if d2 < b.0 {
            Some((d2, hit))
        } else {
            best
        },
    }
}

/// The city built from the varints of one city entry.
pub open spec fn city_hit(v: Seq<nat>, lat: int, lon: int) -> CityHit {
    CityHit {
        lat: lat as i64,
        lon: lon as i64,
        name_i: (v[2] % 0x1_0000_0000) as u32,
        a1_i: (v[3] % 0x1_0000_0000) as u32,
        a2_i: (v[4] % 0x1_0000_0000) as u32,
        a1c_i: (v[5] % 0x1_0000_0000) as u32,
        tz_i: (v[6] % 0x1_0000_0000) as u32,
        cc: (v[7] % 0x1_0000) as u16,
    }
}

/// `k` city entries from `i`: running coordinates `lat`, `lon`, nearest so
/// far `best`. `None` where a read or a sum fails.
pub open spec fn city_scan(
    buf: Seq<u8>,
    i: int,
    k: nat,
    lat: int,
    lon: int,
    lat_q: i64,
    lon_q: i64,
    best: Option<(i64, CityHit)>,
) -> Option<Option<(i64, CityHit)>>
    decreases k,
{
    if k == 0 {
        Some(best)
    } else {
        match read_varints(buf, i, 8) {
            None => None,
            Some(x) => {
                let v = x.0;
                let lat2 = lat + zigzag_value(v[0]);
                let lon2 = lon + zigzag_value(v[1]);
                if !fits_i64(lat2) || !fits_i64(lon2) {
                    None
                } else {
                    match dist2(lat2, lon2, lat_q as int, lon_q as int) {
                        None => None,
                        Some(d2) => city_scan(
                            buf,
                            x.1,
                            (k - 1) as nat,
                            lat2,
                            lon2,
                            lat_q,
                            lon_q,
                            better(best, d2 as i64, city_hit(v, lat2, lon2)),
                        ),
                    }
                }
            },
        }
    }
}

/// One city cell at `off`: a varint count, then the entries.
pub open spec fn scan_city_cell_spec(
    buf: Seq<u8>,
    off: int,
    lat_q: i64,
    lon_q: i64,
    best: Option<(i64, CityHit)>,
) -> Option<Option<(i64, CityHit)>> {
    match varint_end(buf, off) {
        None => None,
        Some(e) => city_scan(buf, e, varint_value(buf, off), 0, 0, lat_q, lon_q, best),
    }
}

/// `k` postal entries from `i`.
pub open spec fn postal_scan(
    buf: Seq<u8>,
    i: int,
    k: nat,
    lat: int,
    lon: int,
    lat_q: i64,
    lon_q: i64,
    best: Option<(i64, u32)>,
) -> Option<Option<(i64, u32)>>
    decreases k,
{
    if k == 0 {
        Some(best)
    } else {
        match read_varints(buf, i, 4) {
            None => None,
            Some(x) => {
                let v = x.0;
                let lat2 = lat + zigzag_value(v[0]);
                let lon2 = lon + zigzag_value(v[1]);
                if !fits_i64(lat2) || !fits_i64(lon2) {
                    None
                } else {
                    match dist2(lat2, lon2, lat_q as int, lon_q as int) {
                        None => None,
                        Some(d2) => postal_scan(
                            buf,
                            x.1,
                            (k - 1) as nat,
                            lat2,
                            lon2,
                            lat_q,
                            lon_q,
                            better(best, d2 as i64, (v[2] % 0x1_0000_0000) as u32),
                        ),
                    }
                }
            },
        }
    }
}

/// One postal cell at `off`.
pub open spec fn scan_postal_cell_spec(
    buf: Seq<u8>,
    off: int,
    lat_q: i64,
    lon_q: i64,
    best: Option<(i64, u32)>,
) -> Option<Option<(i64, u32)>> {
    match varint_end(buf, off) {
        None => None,
        Some(e) => postal_scan(buf, e, varint_value(buf, off), 0, 0, lat_q, lon_q, best),
    }
}

/// Reads the eight varints of one entry.
fn read_n(buf: &[u8], i: usize, n: usize) -> (r: Option<(Vec<u64>, usize)>)
    requires
        n <= 8,
    ensures
        match r {
            None => read_varints(buf@, i as int, n as nat) is None,
            Some(x) => read_varints(buf@, i as int, n as nat) == Some(
                (x.0@.map_values(|v: u64| v as nat), x.1 as int),
            ) && x.0@.len() == n && (n > 0 ==> x.1 <= buf@.len()),
        },
{
    let mut out: Vec<u64> = Vec::new();
    let mut q = i;
    let mut k: usize = 0;
    while k < n
        invariant
            k <= n,
            out@.len() == k,
            q <= buf@.len() || k == 0,
            read_varints(buf@, i as int, n as nat) == match read_varints(
                buf@,
                q as int,
                (n - k) as nat,
            ) {
                None => None,
                Some(x) => Some((out@.map_values(|v: u64| v as nat) + x.0, x.1)),
            },
        decreases n - k,
    {
        if !varint_readable(buf, q) {
            return None;
        }
        let (v, used) = varint(buf, q);
        let dl = buf.len();
        let ghost before = out@.map_values(|v: u64| v as nat);
        out.push(v);
        proof {
            assert(out@.map_values(|v: u64| v as nat) =~= before.push(v as nat));
            let rest = read_varints(buf@, q + used, (n - k - 1) as nat);
            match rest {
                None => {},
                Some(y) => {
                    assert(before + (seq![v as nat] + y.0) =~= before.push(v as nat) + y.0);
                },
            }
        }
        q = q + used;
        k = k + 1;
    }
    proof {
        assert(out@.map_values(|v: u64| v as nat) + Seq::<nat>::empty() =~= out@.map_values(
            |v: u64| v as nat,
        ));
    }
    Some((out, q))
}

/// The squared distance, if each step fits in an `i64`.
fn dist2_exec(lat: i64, lon: i64, lat_q: i64, lon_q: i64) -> (r: Option<i64>)
    ensures
        match r {
            None => dist2(lat as int, lon as int, lat_q as int, lon_q as int) is None,
            Some(d) => dist2(lat as int, lon as int, lat_q as int, lon_q as int) == Some(d as int),
        },
{
    let dx = match lat.checked_sub(lat_q) {
        None => return None,
        Some(x) => x,
    };
    let dy = match lon.checked_sub(lon_q) {
        None => return None,
        Some(x) => x,
    };
    let dx2 = match dx.checked_mul(dx) {
        None => return None,
        Some(x) => x,
    };
    let dy2 = match dy.checked_mul(dy) {
        None => return None,
        Some(x) => x,
    };
    dx2.checked_add(dy2)
}

/// Scans one city cell at `off` of `buf`, keeping the nearest city.
fn scan_city_cell(
    buf: &[u8],
    off: usize,
    lat_q: i64,
    lon_q: i64,
    init: Option<(i64, CityHit)>,
) -> (r: Option<Option<(i64, CityHit)>>)
    ensures
        r == scan_city_cell_spec(buf@, off as int, lat_q, lon_q, init),
{
    if !varint_readable(buf, off) {
        return None;
    }
    let (n, k) = varint(buf, off);
    let bl = buf.len();
    let mut i = off + k;
    let mut lat: i64 = 0;
    let mut lon: i64 = 0;
    let mut best = init;
    let mut c: u64 = 0;
    while c < n
        invariant
            c <= n,
            scan_city_cell_spec(buf@, off as int, lat_q, lon_q, init)
                == city_scan(buf@, i as int, (n - c) as nat, lat as int, lon as int, lat_q, lon_q, best),
        decreases n - c,
    {
        let (v, e) = match read_n(buf, i, 8) {
            None => {
                proof {
                    assert(city_scan(buf@, i as int, (n - c) as nat, lat as int, lon as int, lat_q, lon_q, best) is None);
                }
                return None;
            },
            Some(x) => x,
        };
        let ghost sv = v@.map_values(|x: u64| x as nat);
        proof {
            assert(sv[0] == v@[0] as nat);
            assert(sv[1] == v@[1] as nat);
        }
        let lat2 = match lat.checked_add(zigzag(v[0])) {
            None => {
                proof {
                    assert(city_scan(buf@, i as int, (n - c) as nat, lat as int, lon as int, lat_q, lon_q, best) is None);
                }
                return None;
            },
            Some(x) => x,
        };
        let lon2 = match lon.checked_add(zigzag(v[1])) {
            None => {
                proof {
                    assert(city_scan(buf@, i as int, (n - c) as nat, lat as int, lon as int, lat_q, lon_q, best) is None);
                }
                return None;
            },
            Some(x) => x,
        };
        let d2 = match dist2_exec(lat2, lon2, lat_q, lon_q) {
            None => {
                proof {
                    assert(city_scan(buf@, i as int, (n - c) as nat, lat as int, lon as int, lat_q, lon_q, best) is None);
                }
                return None;
            },
            Some(x) => x,
        };
        let hit = CityHit {
            lat: lat2,
            lon: lon2,
            name_i: (v[2] % 0x1_0000_0000) as u32,
            a1_i: (v[3] % 0x1_0000_0000) as u32,
            a2_i: (v[4] % 0x1_0000_0000) as u32,
            a1c_i: (v[5] % 0x1_0000_0000) as u32,
            tz_i: (v[6] % 0x1_0000_0000) as u32,
            cc: (v[7] % 0x1_0000) as u16,
        };
        proof {
            assert(sv[2] == v@[2] as nat);
            assert(sv[3] == v@[3] as nat);
            assert(sv[4] == v@[4] as nat);
            assert(sv[5] == v@[5] as nat);
            assert(sv[6] == v@[6] as nat);
            assert(sv[7] == v@[7] as nat);
            assert(hit == city_hit(sv, lat2 as int, lon2 as int));
        }
        best = match best {
            None => Some((d2, hit)),
            Some(b) => if d2 < b.0 {
                Some((d2, hit))
            } else {
                Some(b)
            },
        };
        i = e;
        lat = lat2;
        lon = lon2;
        c = c + 1;
    }
    Some(best)
}

/// Scans one postal cell at `off` of `buf`, keeping the nearest postal
/// point's code index.
fn scan_postal_cell(
    buf: &[u8],
    off: usize,
    lat_q: i64,
    lon_q: i64,
    init: Option<(i64, u32)>,
) -> (r: Option<Option<(i64, u32)>>)
    ensures
        r == scan_postal_cell_spec(buf@, off as int, lat_q, lon_q, init),
{
    if !varint_readable(buf, off) {
        return None;
    }
    let (n, k) = varint(buf, off);
    let bl = buf.len();
    let mut i = off + k;
    let mut lat: i64 = 0;
    let mut lon: i64 = 0;
    let mut best = init;
    let mut c: u64 = 0;
    while c < n
        invariant
            c <= n,
            scan_postal_cell_spec(buf@, off as int, lat_q, lon_q, init) == postal_scan(
                buf@,
                i as int,
                (n - c) as nat,
                lat as int,
                lon as int,
                lat_q,
                lon_q,
                best,
            ),
        decreases n - c,
    {
        let (v, e) = match read_n(buf, i, 4) {
            None => {
                proof {
                    assert(postal_scan(buf@, i as int, (n - c) as nat, lat as int, lon as int, lat_q, lon_q, best) is None);
                }
                return None;
            },
            Some(x) => x,
        };
        let ghost sv = v@.map_values(|x: u64| x as nat);
        proof {
            assert(sv[0] == v@[0] as nat);
            assert(sv[1] == v@[1] as nat);
            assert(sv[2] == v@[2] as nat);
        }
        let lat2 = match lat.checked_add(zigzag(v[0])) {
            None => {
                proof {
                    assert(postal_scan(buf@, i as int, (n - c) as nat, lat as int, lon as int, lat_q, lon_q, best) is None);
                }
                return None;
            },
            Some(x) => x,
        };
        let lon2 = match lon.checked_add(zigzag(v[1])) {
            None => {
                proof {
                    assert(postal_scan(buf@, i as int, (n - c) as nat, lat as int, lon as int, lat_q, lon_q, best) is None);
                }
                return None;
            },
            Some(x) => x,
        };
        let d2 = match dist2_exec(lat2, lon2, lat_q, lon_q) {
            None => {
                proof {
                    assert(postal_scan(buf@, i as int, (n - c) as nat, lat as int, lon as int, lat_q, lon_q, best) is None);
                }
                return None;
            },
            Some(x) => x,
        };
        let ps_i = (v[2] % 0x1_0000_0000) as u32;
        best = match best {
            None => Some((d2, ps_i)),
            Some(b) => if d2 < b.0 {
                Some((d2, ps_i))
            } else {
                Some(b)
            },
        };
        i = e;
        lat = lat2;
        lon = lon2;
        c = c + 1;
    }
    Some(best)
}

// ---------------------------------------------------------------------------
// Grid search
// ---------------------------------------------------------------------------

/// Strictly ascending keys.
pub open spec fn keys_strict(g: Seq<(u32, u32)>) -> bool {
    forall|i: int, j: int| 0 <= i < j < g.len() ==> g[i].0 < g[j].0
}

/// The offset stored with key `c`, if the key is present.
pub open spec fn grid_find(g: Seq<(u32, u32)>, c: int) -> Option<u32> {
    if exists|i: int| 0 <= i < g.len() && g[i].0 == c {
        Some(g[choose|i: int| 0 <= i < g.len() && g[i].0 == c].1)
    } else {
        None
    }
}

/// Binary search for key `key` in a table with strictly ascending keys.
fn bsearch(v: &[(u32, u32)], key: u32) -> (r: Option<u32>)
    requires
        keys_strict(v@),
    ensures
        r == grid_find(v@, key as int),
{
    let mut lo: usize = 0;
    let mut hi: usize = v.len();
    while lo < hi
        invariant
            lo <= hi <= v@.len(),
            keys_strict(v@),
            forall|j: int| 0 <= j < lo ==> v@[j].0 < key,
            forall|j: int| hi <= j < v@.len() ==> v@[j].0 > key,
        decreases hi - lo,
    {
        let mid = lo + (hi - lo) / 2;
        let k = v[mid].0;
        if k == key {
            proof {
                let c = choose|i: int| 0 <= i < v@.len() && v@[i].0 == key;
                assert(v@[mid as int].0 == key);
                if c != mid {
                    if c < mid {
                        assert(v@[c].0 < v@[mid as int].0);
                    } else {
                        assert(v@[mid as int].0 < v@[c].0);
                    }
                }
            }
            return Some(v[mid].1);
        } else if k < key {
            proof {
                assert forall|j: int| 0 <= j < mid + 1 implies v@[j].0 < key by {
                    if j < mid {
                        assert(v@[j].0 < v@[mid as int].0);
                    }
                }
            }
            lo = mid + 1;
        } else {
            proof {
                assert forall|j: int| mid <= j < v@.len() implies v@[j].0 > key by {
                    if j > mid {
                        assert(v@[mid as int].0 < v@[j].0);
                    }
                }
            }
            hi = mid;
        }
    }
    proof {
        assert(!exists|i: int| 0 <= i < v@.len() && v@[i].0 == key);
    }
    None
}

/// Whether a table's keys ascend strictly.
fn keys_strict_exec(v: &[(u32, u32)]) -> (r: bool)
    ensures
        r == keys_strict(v@),
{
    if v.len() == 0 {
        return true;
    }
    let mut i: usize = 1;
    while i < v.len()
        invariant
            1 <= i <= v@.len(),
            forall|a: int, b: int| 0 <= a < b < i ==> v@[a].0 < v@[b].0,
        decreases v@.len() - i,
    {
        if v[i - 1].0 >= v[i].0 {
            return false;
        }
        proof {
            assert forall|a: int, b: int| 0 <= a < b < i + 1 implies v@[a].0 < v@[b].0 by {
                if b == i && a < i - 1 {
                    assert(v@[a].0 < v@[i - 1].0);
                }
            }
        }
        i = i + 1;
    }
    true
}

/// One row of a square of city cells: columns `dlo..=r` of row `la`.
pub open spec fn city_row(
    buf: Seq<u8>,
    grid: Seq<(u32, u32)>,
    la: int,
    base_lo: int,
    dlo: int,
    r: int,
    lat_q: i64,
    lon_q: i64,
    best: Option<(i64, CityHit)>,
) -> Option<Option<(i64, CityHit)>>
    decreases r - dlo + 1,
{
    if dlo > r {
        Some(best)
    } else {
        let lo = base_lo + dlo;
        let step = if 0 <= la < 1800 && 0 <= lo < 3600 {
            match grid_find(grid, la * 3600 + lo) {
                None => Some(best),
                Some(off) => scan_city_cell_spec(buf, off as int, lat_q, lon_q, best),
            }
        } else {
            Some(best)
        };
        match step {
            None => None,
            Some(b2) => city_row(buf, grid, la, base_lo, dlo + 1, r, lat_q, lon_q, b2),
        }
    }
}

/// Rows `dla..=r` of the square of radius `r` around `(base_la, base_lo)`.
pub open spec fn city_square(
    buf: Seq<u8>,
    grid: Seq<(u32, u32)>,
    base_la: int,
    base_lo: int,
    dla: int,
    r: int,
    lat_q: i64,
    lon_q: i64,
    best: Option<(i64, CityHit)>,
) -> Option<Option<(i64, CityHit)>>
    decreases r - dla + 1,
{
    if dla > r {
        Some(best)
    } else {
        match city_row(buf, grid, base_la + dla, base_lo, -r, r, lat_q, lon_q, best) {
            None => None,
            Some(b2) => city_square(buf, grid, base_la, base_lo, dla + 1, r, lat_q, lon_q, b2),
        }
    }
}

/// Squares of radius `r`, `2r`, `4r`, ... until one holds a point or the
/// radius passes 200.
pub open spec fn city_search(
    buf: Seq<u8>,
    grid: Seq<(u32, u32)>,
    base_la: int,
    base_lo: int,
    r: int,
    lat_q: i64,
    lon_q: i64,
) -> Option<Option<(i64, CityHit)>>
    decreases 256 - r,
{
    if r < 1 || r > 256 {
        Some(None)
    } else {
        match city_square(buf, grid, base_la, base_lo, -r, r, lat_q, lon_q, None) {
            None => None,
            Some(b) => if b is Some || r > 200 || 2 * r > 256 {
                Some(b)
            } else {
                city_search(buf, grid, base_la, base_lo, 2 * r, lat_q, lon_q)
            },
        }
    }
}

/// Scans the square of radius `r` around `(base_la, base_lo)`.
fn city_square_exec(
    buf: &[u8],
    grid: &[(u32, u32)],
    base_la: i32,
    base_lo: i32,
    r: i32,
    lat_q: i64,
    lon_q: i64,
) -> (res: Option<Option<(i64, CityHit)>>)
    requires
        keys_strict(grid@),
        1 <= r <= 256,
        0 <= base_la <= 0x20_0000,
        0 <= base_lo <= 0x20_0000,
    ensures
        res == city_square(buf@, grid@, base_la as int, base_lo as int, -(r as int), r as int, lat_q, lon_q, None),
{
    let mut best: Option<(i64, CityHit)> = None;
    let mut dla: i32 = -r;
    while dla <= r
        invariant
            -r <= dla <= r + 1,
            1 <= r <= 256,
            0 <= base_la <= 0x20_0000,
            0 <= base_lo <= 0x20_0000,
            keys_strict(grid@),
            city_square(buf@, grid@, base_la as int, base_lo as int, -(r as int), r as int, lat_q, lon_q, None)
                == city_square(
                buf@,
                grid@,
                base_la as int,
                base_lo as int,
                dla as int,
                r as int,
                lat_q,
                lon_q,
                best,
            ),
        decreases r - dla + 1,
    {
        let la = base_la + dla;
        let ghost row_start = best;
        let mut dlo: i32 = -r;
        while dlo <= r
            invariant
                -r <= dlo <= r + 1,
                -r <= dla <= r,
                1 <= r <= 256,
                0 <= base_la <= 0x20_0000,
                0 <= base_lo <= 0x20_0000,
                la == base_la + dla,
                keys_strict(grid@),
                city_square(buf@, grid@, base_la as int, base_lo as int, -(r as int), r as int, lat_q, lon_q, None)
                    == city_square(
                    buf@,
                    grid@,
                    base_la as int,
                    base_lo as int,
                    dla as int,
                    r as int,
                    lat_q,
                    lon_q,
                    row_start,
                ),
                city_row(buf@, grid@, la as int, base_lo as int, -(r as int), r as int, lat_q, lon_q, row_start)
                    == city_row(
                    buf@,
                    grid@,
                    la as int,
                    base_lo as int,
                    dlo as int,
                    r as int,
                    lat_q,
                    lon_q,
                    best,
                ),
            decreases r - dlo + 1,
        {
            let lo = base_lo + dlo;
            if 0 <= la && la < 1800 && 0 <= lo && lo < 3600 {
                let c = (la * 3600 + lo) as u32;
                match bsearch(grid, c) {
                    None => {},
                    Some(off) => {
                        match scan_city_cell(buf, off as usize, lat_q, lon_q, best) {
                            None => {
                                proof {
                                    assert(city_row(buf@, grid@, la as int, base_lo as int, dlo as int, r as int, lat_q, lon_q, best) is None);
                                }
                                return None;
                            },
                            Some(b2) => {
                                best = b2;
                            },
                        }
                    },
                }
            }
            dlo = dlo + 1;
        }
        dla = dla + 1;
    }
    Some(best)
}

/// One row of a square of postal cells: columns `dlo..=r` of row `la`.
pub open spec fn postal_row(
    buf: Seq<u8>,
    base: int,
    grid: Seq<(u32, u32)>,
    la: int,
    base_lo: int,
    dlo: int,
    r: int,
    lat_q: i64,
    lon_q: i64,
    best: Option<(i64, u32)>,
) -> Option<Option<(i64, u32)>>
    decreases r - dlo + 1,
{
    if dlo > r {
        Some(best)
    } else {
        let lo = base_lo + dlo;
        let step = if 0 <= la < 18000 && 0 <= lo < 36000 {
            match grid_find(grid, la * 36000 + lo) {
                None => Some(best),
                Some(off) => if base + off > buf.len() {
                    None
                } else {
                    scan_postal_cell_spec(buf.subrange(base + off, buf.len() as int), 0, lat_q, lon_q, best)
                },
            }
        } else {
            Some(best)
        };
        match step {
            None => None,
            Some(b2) => postal_row(buf, base, grid, la, base_lo, dlo + 1, r, lat_q, lon_q, b2),
        }
    }
}

/// Rows `dla..=r` of the square of radius `r` around `(base_la, base_lo)`.
pub open spec fn postal_square(
    buf: Seq<u8>,
    base: int,
    grid: Seq<(u32, u32)>,
    base_la: int,
    base_lo: int,
    dla: int,
    r: int,
    lat_q: i64,
    lon_q: i64,
    best: Option<(i64, u32)>,
) -> Option<Option<(i64, u32)>>
    decreases r - dla + 1,
{
    if dla > r {
        Some(best)
    } else {
        match postal_row(buf, base, grid, base_la + dla, base_lo, -r, r, lat_q, lon_q, best) {
            None => None,
            Some(b2) => postal_square(buf, base, grid, base_la, base_lo, dla + 1, r, lat_q, lon_q, b2),
        }
    }
}

/// Squares of radius `r`, `2r`, `4r`, ... until one holds a point or the
/// radius passes 1000.
pub open spec fn postal_search(
    buf: Seq<u8>,
    base: int,
    grid: Seq<(u32, u32)>,
    base_la: int,
    base_lo: int,
    r: int,
    lat_q: i64,
    lon_q: i64,
) -> Option<Option<(i64, u32)>>
    decreases 1024 - r,
{
    if r < 1 || r > 1024 {
        Some(None)
    } else {
        match postal_square(buf, base, grid, base_la, base_lo, -r, r, lat_q, lon_q, None) {
            None => None,
            Some(b) => if b is Some || r > 1000 || 2 * r > 1024 {
                Some(b)
            } else {
                postal_search(buf, base, grid, base_la, base_lo, 2 * r, lat_q, lon_q)
            },
        }
    }
}

/// Scans the square of radius `r` around `(base_la, base_lo)`.
fn postal_square_exec(
    buf: &[u8],
    base: u64,
    grid: &[(u32, u32)],
    base_la: i32,
    base_lo: i32,
    r: i32,
    lat_q: i64,
    lon_q: i64,
) -> (res: Option<Option<(i64, u32)>>)
    requires
        keys_strict(grid@),
        1 <= r <= 1024,
        0 <= base_la <= 0x20_0000,
        0 <= base_lo <= 0x20_0000,
    ensures
        res == postal_square(buf@, base as int, grid@, base_la as int, base_lo as int, -(r as int), r as int, lat_q, lon_q, None),
{
    let mut best: Option<(i64, u32)> = None;
    let mut dla: i32 = -r;
    while dla <= r
        invariant
            -r <= dla <= r + 1,
            1 <= r <= 1024,
            0 <= base_la <= 0x20_0000,
            0 <= base_lo <= 0x20_0000,
            keys_strict(grid@),
            postal_square(buf@, base as int, grid@, base_la as int, base_lo as int, -(r as int), r as int, lat_q, lon_q, None)
                == postal_square(
                buf@,
                base as int,
                grid@,
                base_la as int,
                base_lo as int,
                dla as int,
                r as int,
                lat_q,
                lon_q,
                best,
            ),
        decreases r - dla + 1,
    {
        let la = base_la + dla;
        let ghost row_start = best;
        let mut dlo: i32 = -r;
        while dlo <= r
            invariant
                -r <= dlo <= r + 1,
                -r <= dla <= r,
                1 <= r <= 1024,
                0 <= base_la <= 0x20_0000,
                0 <= base_lo <= 0x20_0000,
                la == base_la + dla,
                keys_strict(grid@),
                postal_square(buf@, base as int, grid@, base_la as int, base_lo as int, -(r as int), r as int, lat_q, lon_q, None)
                    == postal_square(
                    buf@,
                    base as int,
                    grid@,
                    base_la as int,
                    base_lo as int,
                    dla as int,
                    r as int,
                    lat_q,
                    lon_q,
                    row_start,
                ),
                postal_row(buf@, base as int, grid@, la as int, base_lo as int, -(r as int), r as int, lat_q, lon_q, row_start)
                    == postal_row(
                    buf@,
                    base as int,
                    grid@,
                    la as int,
                    base_lo as int,
                    dlo as int,
                    r as int,
                    lat_q,
                    lon_q,
                    best,
                ),
            decreases r - dlo + 1,
        {
            let lo = base_lo + dlo;
            if 0 <= la && la < 18000 && 0 <= lo && lo < 36000 {
                let c = (la * 36000 + lo) as u32;
                match bsearch(grid, c) {
                    None => {},
                    Some(off) => {
                        if base > buf.len() as u64 || off as u64 > buf.len() as u64 - base {
                            proof {
                                assert(postal_row(buf@, base as int, grid@, la as int, base_lo as int, dlo as int, r as int, lat_q, lon_q, best) is None);
                            }
                            return None;
                        }
                        let start = (base + off as u64) as usize;
                        let tail = &buf[start..buf.len()];
                        match scan_postal_cell(tail, 0, lat_q, lon_q, best) {
                            None => {
                                proof {
                                    assert(postal_row(buf@, base as int, grid@, la as int, base_lo as int, dlo as int, r as int, lat_q, lon_q, best) is None);
                                }
                                return None;
                            },
                            Some(b2) => {
                                best = b2;
                            },
                        }
                    },
                }
            }
            dlo = dlo + 1;
        }
        dla = dla + 1;
    }
    Some(best)
}

/// Searches squares of growing radius around postal-grid cell `pcell`.
fn postal_search_exec(
    buf: &[u8],
    base: u64,
    grid: &[(u32, u32)],
    pcell: u32,
    lat_q: i64,
    lon_q: i64,
) -> (res: Option<Option<(i64, u32)>>)
    requires
        keys_strict(grid@),
    ensures
        res == postal_search(buf@, base as int, grid@, (pcell / 36000) as int, (pcell % 36000) as int, 1, lat_q, lon_q),
{
    let base_la = (pcell / 36000) as i32;
    let base_lo = (pcell % 36000) as i32;
    let mut r: i32 = 1;
    loop
        invariant
            1 <= r <= 1024,
            keys_strict(grid@),
            base_la == pcell / 36000,
            base_lo == pcell % 36000,
            0 <= base_la <= 0x20_0000,
            0 <= base_lo <= 0x20_0000,
            postal_search(buf@, base as int, grid@, base_la as int, base_lo as int, 1, lat_q, lon_q)
                == postal_search(buf@, base as int, grid@, base_la as int, base_lo as int, r as int, lat_q, lon_q),
        decreases 1024 - r,
    {
        let best = match postal_square_exec(buf, base, grid, base_la, base_lo, r, lat_q, lon_q) {
            None => return None,
            Some(b) => b,
        };
        if best.is_some() || r > 1000 || 2 * r > 1024 {
            return Some(best);
        }
        r = 2 * r;
    }
}

// ---------------------------------------------------------------------------
// Lookups
// ---------------------------------------------------------------------------

/// The string at index `i` of the string table: empty past the table or
/// for bytes that are not UTF-8; `None` where a read fails hard.
pub open spec fn gc_str(b: Seq<u8>, m: GcModel, i: nat) -> Option<Seq<char>> {
    if i + 1 > m.str_count {
        Some(seq![])
    } else {
        let o = m.str_offsets_off + 4 * i;
        if o + 8 > b.len() {
            None
        } else {
            let lo = m.str_body_off + le_at(b, o, 4);
            let hi = m.str_body_off + le_at(b, o + 4, 4);
            if !(lo <= hi && hi <= b.len()) {
                None
            } else {
                let body = b.subrange(lo, hi);
                Some(
                    if valid_utf8(body) {
                        decode_utf8(body)
                    } else {
                        seq![]
                    },
                )
            }
        }
    }
}

/// The ISO code of country index `i`: two bytes of the code table as
/// UTF-8, or empty.
pub open spec fn gc_cc(b: Seq<u8>, m: GcModel, i: u16) -> Seq<char> {
    let p = m.cc_off + 2 * i;
    if p + 2 <= b.len() && valid_utf8(b.subrange(p, p + 2)) {
        decode_utf8(b.subrange(p, p + 2))
    } else {
        seq![]
    }
}

/// The nearest city to `(lat_q, lon_q)` in squares around grid `cell`.
pub open spec fn gc_nearest_city(b: Seq<u8>, m: GcModel, lat_q: i64, lon_q: i64, cell: u32) -> Option<
    Option<CityHit>,
> {
    if !(m.cities_start <= m.cities_end <= b.len()) {
        None
    } else if m.cities_start == m.cities_end {
        Some(None)
    } else {
        let buf = b.subrange(m.cities_start, m.cities_end);
        match city_search(buf, m.grid, (cell / 3600) as int, (cell % 3600) as int, 1, lat_q, lon_q) {
            None => None,
            Some(best) => Some(
                match best {
                    None => None,
                    Some(x) => Some(x.1),
                },
            ),
        }
    }
}

/// The postal country of `cc`, if any.
pub open spec fn gc_postal_index(m: GcModel, cc: u16) -> Option<int> {
    if exists|i: int| 0 <= i < m.postal.len() && m.postal[i].cc == cc {
        Some(choose|i: int| 0 <= i < m.postal.len() && m.postal[i].cc == cc)
    } else {
        None
    }
}

/// The postal code nearest to `(lat_q, lon_q)` in country `cc`, searched
/// in squares around postal-grid cell `pcell`: none where the country has
/// no postal data, no point is found or the code is not UTF-8.
pub open spec fn gc_nearest_postal(
    b: Seq<u8>,
    m: GcModel,
    cc: u16,
    lat_q: i64,
    lon_q: i64,
    pcell: u32,
) -> Option<Option<Seq<char>>> {
    match gc_postal_index(m, cc) {
        None => Some(None),
        Some(i) => {
            let pc = m.postal[i];
            match postal_search(b, pc.body_off, pc.cell_dir, (pcell / 36000) as int, (pcell % 36000) as int, 1, lat_q, lon_q) {
                None => None,
                Some(best) => match best {
                    None => Some(None),
                    Some(x) => {
                        let o = pc.ps_offsets_off + 4 * x.1;
                        if o + 8 > b.len() {
                            None
                        } else {
                            let lo = pc.ps_body_off + le_at(b, o, 4);
                            let hi = pc.ps_body_off + le_at(b, o + 4, 4);
                            if !(lo <= hi && hi <= b.len()) {
                                None
                            } else if valid_utf8(b.subrange(lo, hi)) {
                                Some(Some(decode_utf8(b.subrange(lo, hi))))
                            } else {
                                Some(None)
                            }
                        }
                    },
                },
            }
        },
    }
}

/// The grid and every postal cell directory have strictly ascending cells,
/// and no two postal countries share a code: the tables binary search
/// needs to find one answer.
pub open spec fn gc_tables_ordered(m: GcModel) -> bool {
    &&& keys_strict(m.grid)
    &&& forall|i: int| 0 <= i < m.postal.len() ==> keys_strict(#[trigger] m.postal[i].cell_dir)
    &&& forall|i: int, j: int|
        0 <= i < j < m.postal.len() ==> m.postal[i].cc != m.postal[j].cc
}

/// The strings of a place found for `(lat_q, lon_q)`: city, region, region
/// code, district, country code, postal code and time zone of the nearest
/// city, with its coordinates. Outer `None` where a read fails hard.
pub open spec fn gc_locate(
    b: Seq<u8>,
    m: GcModel,
    lat_q: i64,
    lon_q: i64,
    cell: u32,
    pcell: u32,
) -> Option<Option<(Seq<Seq<char>>, i64, i64)>> {
    match gc_nearest_city(b, m, lat_q, lon_q, cell) {
        None => None,
        Some(None) => Some(None),
        Some(Some(c)) => match gc_nearest_postal(b, m, c.cc, lat_q, lon_q, pcell) {
            None => None,
            Some(postal) => {
                let name = gc_str(b, m, c.name_i as nat);
                let a1 = gc_str(b, m, c.a1_i as nat);
                let a1c = gc_str(b, m, c.a1c_i as nat);
                let a2 = gc_str(b, m, c.a2_i as nat);
                let tz = gc_str(b, m, c.tz_i as nat);
                if name is None || a1 is None || a1c is None || a2 is None || tz is None {
                    None
                } else {
                    let p = match postal {
                        Some(p) => p,
                        None => seq![],
                    };
                    Some(
                        Some(
                            (
                                seq![
                                    name->0,
                                    a1->0,
                                    a1c->0,
                                    a2->0,
                                    gc_cc(b, m, c.cc),
                                    p,
                                    tz->0,
                                ],
                                c.lat,
                                c.lon,
                            ),
                        ),
                    )
                }
            },
        },
    }
}

impl Geocoder {
    /// Whether the cell tables ascend strictly and postal countries are
    /// distinct.
    pub fn tables_ordered(&self) -> (r: bool)
        ensures
            r == gc_tables_ordered(self.model()),
    {
        proof {
            use_type_invariant(self);
        }
        let g = self.grid.as_slice();
        if !keys_strict_exec(g) {
            assert(g@ == self.model().grid);
            return false;
        }
        let n = self.postal.len();
        let mut i: usize = 0;
        while i < n
            invariant
                i <= n == self.postal@.len(),
                self.model().postal == pc_models(self.postal@),
                pc_models(self.postal@).len() == n,
                keys_strict(self.model().grid),
                forall|a: int| 0 <= a < i ==> keys_strict(#[trigger] self.model().postal[a].cell_dir),
                forall|a: int, c: int|
                    0 <= a < c < n && a < i ==> self.model().postal[a].cc != self.model().postal[c].cc,
            decreases n - i,
        {
            proof {
                reveal(pc_models);
            }
            let d = self.postal[i].cell_dir.as_slice();
            if !keys_strict_exec(d) {
                assert(d@ == self.model().postal[i as int].cell_dir);
                return false;
            }
            let mut j: usize = i + 1;
            while j < n
                invariant
                    i < n == self.postal@.len(),
                    i + 1 <= j <= n,
                    self.model().postal == pc_models(self.postal@),
                    forall|c: int| i < c < j ==> self.model().postal[i as int].cc != self.model().postal[c].cc,
                decreases n - j,
            {
                proof {
                    reveal(pc_models);
                }
                if self.postal[i].cc == self.postal[j].cc {
                    assert(self.model().postal[i as int].cc == self.model().postal[j as int].cc);
                    return false;
                }
                j = j + 1;
            }
            i = i + 1;
        }
        true
    }

    /// The string at index `i`, or `None` where a read fails hard.
    fn str_at(&self, i: u32) -> (r: Option<&str>)
        ensures
            match r {
                None => gc_str(self@, self.model(), i as nat) is None,
                Some(s) => gc_str(self@, self.model(), i as nat) == Some(s@),
            },
    {
        proof {
            use_type_invariant(self);
            reveal_strlit("");
        }
        if i as u64 + 1 > self.str_count {
            return Some("");
        }
        let len = self.bytes.len() as u64;
        let o = self.str_offsets_off + 4 * i as u64;
        if o > len || len - o < 8 {
            return None;
        }
        let s = u32le(&self.bytes, o as usize) as u128;
        let e = u32le(&self.bytes, o as usize + 4) as u128;
        let lo = self.str_body_off as u128 + s;
        let hi = self.str_body_off as u128 + e;
        if !(lo <= hi && hi <= len as u128) {
            return None;
        }
        match str_from_utf8(&self.bytes.as_slice()[lo as usize..hi as usize]) {
            Some(t) => Some(t),
            None => Some(""),
        }
    }

    /// The ISO code of country index `i`.
    fn cc_iso(&self, i: u16) -> (r: &str)
        ensures
            r@ == gc_cc(self@, self.model(), i),
    {
        proof {
            use_type_invariant(self);
            reveal_strlit("");
        }
        let len = self.bytes.len() as u128;
        let p = self.cc_off as u128 + 2 * i as u128;
        if p > len || len - p < 2 {
            return "";
        }
        match str_from_utf8(&self.bytes.as_slice()[p as usize..p as usize + 2]) {
            Some(t) => t,
            None => "",
        }
    }

    /// The nearest city, or `None` where a read fails hard.
    fn nearest_city(&self, lat_q: i64, lon_q: i64, cell: u32) -> (r: Option<Option<CityHit>>)
        requires
            gc_tables_ordered(self.model()),
        ensures
            r == gc_nearest_city(self@, self.model(), lat_q, lon_q, cell),
    {
        proof {
            use_type_invariant(self);
        }
        let (c0, c1) = self.cities_range;
        if c0 > c1 || c1 > self.bytes.len() as u64 {
            return None;
        }
        let cities = &self.bytes.as_slice()[c0 as usize..c1 as usize];
        if cities.len() == 0 {
            return Some(None);
        }
        let base_la = (cell / 3600) as i32;
        let base_lo = (cell % 3600) as i32;
        let mut r: i32 = 1;
        loop
            invariant
                1 <= r <= 256,
                keys_strict(self.grid@),
                0 <= base_la <= 0x20_0000,
                0 <= base_lo <= 0x20_0000,
                c0 < c1 <= self@.len(),
                c0 == self.model().cities_start,
                c1 == self.model().cities_end,
                self.grid@ == self.model().grid,
                cities@ == self@.subrange(c0 as int, c1 as int),
                base_la as int == (cell / 3600) as int,
                base_lo as int == (cell % 3600) as int,
                city_search(cities@, self.grid@, base_la as int, base_lo as int, 1, lat_q, lon_q)
                    == city_search(cities@, self.grid@, base_la as int, base_lo as int, r as int, lat_q, lon_q),
            decreases 256 - r,
        {
            let best = match city_square_exec(cities, self.grid.as_slice(), base_la, base_lo, r, lat_q, lon_q) {
                None => return None,
                Some(b) => b,
            };
            if best.is_some() || r > 200 || 2 * r > 256 {
                return Some(
                    match best {
                        None => None,
                        Some(x) => Some(x.1),
                    },
                );
            }
            r = 2 * r;
        }
    }

    /// The position of the postal country `cc`.
    fn postal_slot(&self, cc: u16) -> (r: Option<usize>)
        requires
            gc_tables_ordered(self.model()),
        ensures
            match r {
                None => gc_postal_index(self.model(), cc) is None,
                Some(i) => i < self.postal@.len() && gc_postal_index(self.model(), cc) == Some(i as int),
            },
    {
        proof {
            reveal(pc_models);
        }
        let n = self.postal.len();
        let mut i: usize = 0;
        while i < n
            invariant
                i <= n == self.postal@.len(),
                self.model().postal == pc_models(self.postal@),
                gc_tables_ordered(self.model()),
                forall|a: int| 0 <= a < i ==> self.model().postal[a].cc != cc,
            decreases n - i,
        {
            if self.postal[i].cc == cc {
                proof {
                    assert(self.model().postal[i as int].cc == cc);
                    let c = choose|k: int| 0 <= k < self.model().postal.len() && self.model().postal[k].cc == cc;
                    if c != i {
                        assert(self.model().postal[c].cc == self.model().postal[i as int].cc);
                    }
                }
                return Some(i);
            }
            i = i + 1;
        }
        None
    }

    /// The postal code nearest to `(lat_q, lon_q)` in country `cc`, or
    /// `None` where a read fails hard.
    fn nearest_postal(&self, cc: u16, lat_q: i64, lon_q: i64, pcell: u32) -> (r: Option<Option<&str>>)
        requires
            gc_tables_ordered(self.model()),
        ensures
            match r {
                None => gc_nearest_postal(self@, self.model(), cc, lat_q, lon_q, pcell) is None,
                Some(None) => gc_nearest_postal(self@, self.model(), cc, lat_q, lon_q, pcell) == Some(None::<Seq<char>>),
                Some(Some(s)) => gc_nearest_postal(self@, self.model(), cc, lat_q, lon_q, pcell) == Some(Some(s@)),
            },
    {
        proof {
            use_type_invariant(self);
            reveal(pc_models);
        }
        let i = match self.postal_slot(cc) {
            None => return Some(None),
            Some(i) => i,
        };
        let pc = &self.postal[i];
        let best = match postal_search_exec(self.bytes.as_slice(), pc.body_off, pc.cell_dir.as_slice(), pcell, lat_q, lon_q) {
            None => return None,
            Some(b) => b,
        };
        let ps_i = match best {
            None => return Some(None),
            Some(x) => x.1,
        };
        let len = self.bytes.len() as u64;
        let o = pc.ps_offsets_off as u128 + 4 * ps_i as u128;
        if o > len as u128 || len as u128 - o < 8 {
            return None;
        }
        let s = u32le(&self.bytes, o as usize) as u128;
        let e = u32le(&self.bytes, o as usize + 4) as u128;
        let lo = pc.ps_body_off as u128 + s;
        let hi = pc.ps_body_off as u128 + e;
        if !(lo <= hi && hi <= len as u128) {
            return None;
        }
        match str_from_utf8(&self.bytes.as_slice()[lo as usize..hi as usize]) {
            Some(t) => Some(Some(t)),
            None => Some(None),
        }
    }

    /// The strings and coordinates of the place found for a query, or
    /// `None` where a read fails hard.
    fn locate(&self, lat_q: i64, lon_q: i64, cell: u32, pcell: u32) -> (r: Option<
        Option<(Vec<&str>, i64, i64)>,
    >)
        requires
            gc_tables_ordered(self.model()),
        ensures
            match r {
                None => gc_locate(self@, self.model(), lat_q, lon_q, cell, pcell) is None,
                Some(None) => gc_locate(self@, self.model(), lat_q, lon_q, cell, pcell) == Some(
                    None::<(Seq<Seq<char>>, i64, i64)>,
                ),
                Some(Some(x)) => x.0@.len() == 7 && gc_locate(self@, self.model(), lat_q, lon_q, cell, pcell)
                    == Some(
                    Some(
                        (
                            seq![
                                x.0@[0]@,
                                x.0@[1]@,
                                x.0@[2]@,
                                x.0@[3]@,
                                x.0@[4]@,
                                x.0@[5]@,
                                x.0@[6]@,
                            ],
                            x.1,
                            x.2,
                        ),
                    ),
                ),
            },
    {
        proof {
            reveal_strlit("");
        }
        let c = match self.nearest_city(lat_q, lon_q, cell) {
            None => return None,
            Some(None) => return Some(None),
            Some(Some(c)) => c,
        };
        let postal = match self.nearest_postal(c.cc, lat_q, lon_q, pcell) {
            None => return None,
            Some(None) => "",
            Some(Some(s)) => s,
        };
        let name = match self.str_at(c.name_i) {
            None => return None,
            Some(s) => s,
        };
        let a1 = match self.str_at(c.a1_i) {
            None => return None,
            Some(s) => s,
        };
        let a1c = match self.str_at(c.a1c_i) {
            None => return None,
            Some(s) => s,
        };
        let a2 = match self.str_at(c.a2_i) {
            None => return None,
            Some(s) => s,
        };
        let tz = match self.str_at(c.tz_i) {
            None => return None,
            Some(s) => s,
        };
        let cc = self.cc_iso(c.cc);
        let mut parts: Vec<&str> = Vec::new();
        parts.push(name);
        parts.push(a1);
        parts.push(a1c);
        parts.push(a2);
        parts.push(cc);
        parts.push(postal);
        parts.push(tz);
        proof {
            let g = gc_locate(self@, self.model(), lat_q, lon_q, cell, pcell);
            let m = self.model();
            assert(gc_nearest_city(self@, m, lat_q, lon_q, cell) == Some(Some(c)));
            assert(gc_str(self@, m, c.name_i as nat) == Some(name@));
            assert(gc_str(self@, m, c.tz_i as nat) == Some(tz@));
            assert(gc_cc(self@, m, c.cc) == cc@);
            assert(gc_nearest_postal(self@, m, c.cc, lat_q, lon_q, pcell) is Some);
            assert(parts@[5]@ == match gc_nearest_postal(self@, m, c.cc, lat_q, lon_q, pcell)->0 {
                Some(p) => p,
                None => seq![],
            });
            assert(parts@[0] == name);
            assert(g == Some(
                Some(
                    (
                        seq![
                            parts@[0]@,
                            parts@[1]@,
                            parts@[2]@,
                            parts@[3]@,
                            parts@[4]@,
                            parts@[5]@,
                            parts@[6]@,
                        ],
                        c.lat,
                        c.lon,
                    ),
                ),
            ));
        }
        Some(Some((parts, c.lat, c.lon)))
    }

    /// Whether a query reads the blob without failing hard: where this is
    /// false, a lookup of it is not defined.
    pub fn lookup_defined(&self, lat_q: i64, lon_q: i64, cell: u32, pcell: u32) -> (r: bool)
        requires
            gc_tables_ordered(self.model()),
        ensures
            r == gc_locate(self@, self.model(), lat_q, lon_q, cell, pcell) is Some,
    {
        self.locate(lat_q, lon_q, cell, pcell).is_some()
    }

    /// Reverse-geocodes the point `(lat_q, lon_q)`, in millionths of a
    /// degree, whose grid cell is `cell` and postal-grid cell `pcell`: the
    /// nearest city, its postal code, and the facts of its country and of
    /// its zone at the clock reading `now_secs`, `now_nanos` (seconds and
    /// nanoseconds after 1970). `None` where no city is near.
    pub fn lookup(
        &self,
        lat_q: i64,
        lon_q: i64,
        cell: u32,
        pcell: u32,
        now_secs: i64,
        now_nanos: u32,
    ) -> (r: Option<Place>)
        requires
            gc_tables_ordered(self.model()),
            gc_locate(self@, self.model(), lat_q, lon_q, cell, pcell) is Some,
            0 <= now_secs <= CLOCK_MAX_SECS,
            now_nanos < 1_000_000_000,
        ensures
            match gc_locate(self@, self.model(), lat_q, lon_q, cell, pcell) {
                Some(Some(x)) => r matches Some(p) && place_strings(
                    p,
                    x.0[0],
                    x.0[1],
                    x.0[2],
                    x.0[3],
                    x.0[4],
                    x.0[5],
                    x.0[6],
                    x.1,
                    x.2,
                ) && place_zone(p, x.0[6], now_secs, now_nanos),
                _ => r is None,
            },
    {
        match self.locate(lat_q, lon_q, cell, pcell) {
            None => None,
            Some(None) => None,
            Some(Some(x)) => {
                let parts = x.0;
                Some(
                    enrich(
                        parts[0],
                        parts[1],
                        parts[2],
                        parts[3],
                        parts[4],
                        parts[5],
                        parts[6],
                        x.1,
                        x.2,
                        now_secs,
                        now_nanos,
                    ),
                )
            },
        }
    }

    /// A geocoder whose city section is empty (and lies inside the blob)
    /// places no point anywhere: every query reads the blob without failing
    /// and finds no city, so a lookup is defined and gives `None`.
    pub proof fn law_no_cities_no_place(&self, lat_q: i64, lon_q: i64, cell: u32, pcell: u32)
        requires
            self.model().cities_start == self.model().cities_end <= self@.len(),
        ensures
            gc_locate(self@, self.model(), lat_q, lon_q, cell, pcell) == Some(
                None::<(Seq<Seq<char>>, i64, i64)>,
            ),
    {
    }
}

// ---------------------------------------------------------------------------
// Laws
// ---------------------------------------------------------------------------

/// The squared distances to `(lat_q, lon_q)` of the city entries that a
/// scan of `k` entries from `i` reads, up to the first it cannot.
pub open spec fn city_dists(buf: Seq<u8>, i: int, k: nat, lat: int, lon: int, lat_q: i64, lon_q: i64) -> Seq<
    int,
>
    decreases k,
{
    if k == 0 {
        seq![]
    } else {
        match read_varints(buf, i, 8) {
            None => seq![],
            Some(x) => {
                let lat2 = lat + zigzag_value(x.0[0]);
                let lon2 = lon + zigzag_value(x.0[1]);
                if !fits_i64(lat2) || !fits_i64(lon2) {
                    seq![]
                } else {
                    match dist2(lat2, lon2, lat_q as int, lon_q as int) {
                        None => seq![],
                        Some(d2) => seq![d2] + city_dists(buf, x.1, (k - 1) as nat, lat2, lon2, lat_q, lon_q),
                    }
                }
            },
        }
    }
}

/// A scan of a city cell keeps a nearest city: the one it ends with is no
/// farther than the one it started with, nor than any city it read.
pub proof fn law_city_scan_nearest(
    buf: Seq<u8>,
    i: int,
    k: nat,
    lat: int,
    lon: int,
    lat_q: i64,
    lon_q: i64,
    best: Option<(i64, CityHit)>,
)
    ensures
        city_scan(buf, i, k, lat, lon, lat_q, lon_q, best) matches Some(r) ==> {
            &&& (best is Some || city_dists(buf, i, k, lat, lon, lat_q, lon_q).len() > 0) ==> r is Some
            &&& (best matches Some(b0) ==> dist2(b0.1.lat as int, b0.1.lon as int, lat_q as int, lon_q as int)
                == Some(b0.0 as int)) ==> (r matches Some(b) ==> dist2(
                b.1.lat as int,
                b.1.lon as int,
                lat_q as int,
                lon_q as int,
            ) == Some(b.0 as int))
        },
        city_scan(buf, i, k, lat, lon, lat_q, lon_q, best) matches Some(Some(b)) ==> {
            &&& (best matches Some(b0) ==> b.0 <= b0.0)
            &&& forall|j: int|
                0 <= j < city_dists(buf, i, k, lat, lon, lat_q, lon_q).len() ==> b.0 <= #[trigger] city_dists(
                    buf,
                    i,
                    k,
                    lat,
                    lon,
                    lat_q,
                    lon_q,
                )[j]
        },
    decreases k,
{
    if k > 0 {
        match read_varints(buf, i, 8) {
            None => {},
            Some(x) => {
                let v = x.0;
                let lat2 = lat + zigzag_value(v[0]);
                let lon2 = lon + zigzag_value(v[1]);
                if fits_i64(lat2) && fits_i64(lon2) {
                    match dist2(lat2, lon2, lat_q as int, lon_q as int) {
                        None => {},
                        Some(d2) => {
                            let next = better(best, d2 as i64, city_hit(v, lat2, lon2));
                            law_city_scan_nearest(buf, x.1, (k - 1) as nat, lat2, lon2, lat_q, lon_q, next);
                            let rest = city_dists(buf, x.1, (k - 1) as nat, lat2, lon2, lat_q, lon_q);
                            let all = city_dists(buf, i, k, lat, lon, lat_q, lon_q);
                            assert(all == seq![d2] + rest);
                            assert forall|j: int| 0 < j < all.len() implies #[trigger] all[j] == rest[j - 1] by {}
                        },
                    }
                }
            },
        }
    }
}

/// The squared distances to `(lat_q, lon_q)` of the postal entries that a
/// scan of `k` entries from `i` reads, up to the first it cannot.
pub open spec fn postal_dists(buf: Seq<u8>, i: int, k: nat, lat: int, lon: int, lat_q: i64, lon_q: i64) -> Seq<
    int,
>
    decreases k,
{
    if k == 0 {
        seq![]
    } else {
        match read_varints(buf, i, 4) {
            None => seq![],
            Some(x) => {
                let lat2 = lat + zigzag_value(x.0[0]);
                let lon2 = lon + zigzag_value(x.0[1]);
                if !fits_i64(lat2) || !fits_i64(lon2) {
                    seq![]
                } else {
                    match dist2(lat2, lon2, lat_q as int, lon_q as int) {
                        None => seq![],
                        Some(d2) => seq![d2] + postal_dists(buf, x.1, (k - 1) as nat, lat2, lon2, lat_q, lon_q),
                    }
                }
            },
        }
    }
}

/// A scan of a postal cell keeps a nearest code: the one it ends with is no
/// farther than the one it started with, nor than any point it read.
pub proof fn law_postal_scan_nearest(
    buf: Seq<u8>,
    i: int,
    k: nat,
    lat: int,
    lon: int,
    lat_q: i64,
    lon_q: i64,
    best: Option<(i64, u32)>,
)
    ensures
        postal_scan(buf, i, k, lat, lon, lat_q, lon_q, best) matches Some(r) ==> ((best is Some
            || postal_dists(buf, i, k, lat, lon, lat_q, lon_q).len() > 0) ==> r is Some),
        postal_scan(buf, i, k, lat, lon, lat_q, lon_q, best) matches Some(Some(b)) ==> {
            &&& (best matches Some(b0) ==> b.0 <= b0.0)
            &&& forall|j: int|
                0 <= j < postal_dists(buf, i, k, lat, lon, lat_q, lon_q).len() ==> b.0
                    <= #[trigger] postal_dists(buf, i, k, lat, lon, lat_q, lon_q)[j]
        },
    decreases k,
{
    if k > 0 {
        match read_varints(buf, i, 4) {
            None => {},
            Some(x) => {
                let v = x.0;
                let lat2 = lat + zigzag_value(v[0]);
                let lon2 = lon + zigzag_value(v[1]);
                if fits_i64(lat2) && fits_i64(lon2) {
                    match dist2(lat2, lon2, lat_q as int, lon_q as int) {
                        None => {},
                        Some(d2) => {
                            let next = better(best, d2 as i64, (v[2] % 0x1_0000_0000) as u32);
                            law_postal_scan_nearest(buf, x.1, (k - 1) as nat, lat2, lon2, lat_q, lon_q, next);
                            let rest = postal_dists(buf, x.1, (k - 1) as nat, lat2, lon2, lat_q, lon_q);
                            let all = postal_dists(buf, i, k, lat, lon, lat_q, lon_q);
                            assert(all == seq![d2] + rest);
                            assert forall|j: int| 0 < j < all.len() implies #[trigger] all[j] == rest[j - 1] by {}
                        },
                    }
                }
            },
        }
    }
}

/// The squared distances of the cities in the cell at `off`.
pub open spec fn cell_dists(buf: Seq<u8>, off: int, lat_q: i64, lon_q: i64) -> Seq<int> {
    match varint_end(buf, off) {
        None => seq![],
        Some(e) => city_dists(buf, e, varint_value(buf, off), 0, 0, lat_q, lon_q),
    }
}

/// The squared distances of the cities in columns `dlo..=r` of row `la`.
pub open spec fn row_dists(
    buf: Seq<u8>,
    grid: Seq<(u32, u32)>,
    la: int,
    base_lo: int,
    dlo: int,
    r: int,
    lat_q: i64,
    lon_q: i64,
) -> Seq<int>
    decreases r - dlo + 1,
{
    if dlo > r {
        seq![]
    } else {
        let lo = base_lo + dlo;
        let here = if 0 <= la < 1800 && 0 <= lo < 3600 {
            match grid_find(grid, la * 3600 + lo) {
                None => seq![],
                Some(off) => cell_dists(buf, off as int, lat_q, lon_q),
            }
        } else {
            seq![]
        };
        here + row_dists(buf, grid, la, base_lo, dlo + 1, r, lat_q, lon_q)
    }
}

/// The squared distances of the cities in rows `dla..=r` of the square of
/// radius `r`.
pub open spec fn square_dists(
    buf: Seq<u8>,
    grid: Seq<(u32, u32)>,
    base_la: int,
    base_lo: int,
    dla: int,
    r: int,
    lat_q: i64,
    lon_q: i64,
) -> Seq<int>
    decreases r - dla + 1,
{
    if dla > r {
        seq![]
    } else {
        row_dists(buf, grid, base_la + dla, base_lo, -r, r, lat_q, lon_q) + square_dists(
            buf,
            grid,
            base_la,
            base_lo,
            dla + 1,
            r,
            lat_q,
            lon_q,
        )
    }
}

/// What a scan keeps: a nearest one, whose distance is the distance of its
/// city, and that exists once a city was read.
pub open spec fn keeps_nearest(
    best: Option<(i64, CityHit)>,
    res: Option<(i64, CityHit)>,
    dists: Seq<int>,
    lat_q: i64,
    lon_q: i64,
) -> bool {
    &&& (best is Some || dists.len() > 0) ==> res is Some
    &&& (best matches Some(b0) ==> dist2(b0.1.lat as int, b0.1.lon as int, lat_q as int, lon_q as int) == Some(
        b0.0 as int,
    )) ==> (res matches Some(b) ==> dist2(b.1.lat as int, b.1.lon as int, lat_q as int, lon_q as int) == Some(
        b.0 as int,
    ))
    &&& res matches Some(b) ==> {
        &&& (best matches Some(b0) ==> b.0 <= b0.0)
        &&& forall|j: int| 0 <= j < dists.len() ==> b.0 <= #[trigger] dists[j]
    }
}

/// Keeping the nearest composes over consecutive scans.
proof fn lemma_keeps_nearest_chain(
    best: Option<(i64, CityHit)>,
    mid: Option<(i64, CityHit)>,
    res: Option<(i64, CityHit)>,
    d1: Seq<int>,
    d2: Seq<int>,
    lat_q: i64,
    lon_q: i64,
)
    requires
        keeps_nearest(best, mid, d1, lat_q, lon_q),
        keeps_nearest(mid, res, d2, lat_q, lon_q),
    ensures
        keeps_nearest(best, res, d1 + d2, lat_q, lon_q),
{
    let all = d1 + d2;
    assert forall|j: int| 0 <= j < all.len() && (res is Some) implies (res->0).0 <= #[trigger] all[j] by {
        if j < d1.len() {
            assert(all[j] == d1[j]);
        } else {
            assert(all[j] == d2[j - d1.len()]);
        }
    }
}

/// A scan of one cell keeps the nearest city.
proof fn lemma_cell_nearest(buf: Seq<u8>, off: int, lat_q: i64, lon_q: i64, best: Option<(i64, CityHit)>)
    ensures
        scan_city_cell_spec(buf, off, lat_q, lon_q, best) matches Some(res) ==> keeps_nearest(
            best,
            res,
            cell_dists(buf, off, lat_q, lon_q),
            lat_q,
            lon_q,
        ),
{
    match varint_end(buf, off) {
        None => {},
        Some(e) => {
            law_city_scan_nearest(buf, e, varint_value(buf, off), 0, 0, lat_q, lon_q, best);
        },
    }
}

/// A scan of a row of cells keeps the nearest city.
proof fn lemma_row_nearest(
    buf: Seq<u8>,
    grid: Seq<(u32, u32)>,
    la: int,
    base_lo: int,
    dlo: int,
    r: int,
    lat_q: i64,
    lon_q: i64,
    best: Option<(i64, CityHit)>,
)
    ensures
        city_row(buf, grid, la, base_lo, dlo, r, lat_q, lon_q, best) matches Some(res) ==> keeps_nearest(
            best,
            res,
            row_dists(buf, grid, la, base_lo, dlo, r, lat_q, lon_q),
            lat_q,
            lon_q,
        ),
    decreases r - dlo + 1,
{
    if dlo <= r {
        let lo = base_lo + dlo;
        let here = if 0 <= la < 1800 && 0 <= lo < 3600 {
            match grid_find(grid, la * 3600 + lo) {
                None => Seq::<int>::empty(),
                Some(off) => cell_dists(buf, off as int, lat_q, lon_q),
            }
        } else {
            Seq::<int>::empty()
        };
        let step = if 0 <= la < 1800 && 0 <= lo < 3600 {
            match grid_find(grid, la * 3600 + lo) {
                None => Some(best),
                Some(off) => scan_city_cell_spec(buf, off as int, lat_q, lon_q, best),
            }
        } else {
            Some(best)
        };
        if 0 <= la < 1800 && 0 <= lo < 3600 {
            match grid_find(grid, la * 3600 + lo) {
                None => {},
                Some(off) => lemma_cell_nearest(buf, off as int, lat_q, lon_q, best),
            }
        }
        match step {
            None => {},
            Some(b2) => {
                lemma_row_nearest(buf, grid, la, base_lo, dlo + 1, r, lat_q, lon_q, b2);
                match city_row(buf, grid, la, base_lo, dlo + 1, r, lat_q, lon_q, b2) {
                    None => {},
                    Some(res) => {
                        lemma_keeps_nearest_chain(
                            best,
                            b2,
                            res,
                            here,
                            row_dists(buf, grid, la, base_lo, dlo + 1, r, lat_q, lon_q),
                            lat_q,
                            lon_q,
                        );
                    },
                }
            },
        }
    }
}

/// A scan of the rows of a square keeps the nearest city.
proof fn lemma_square_nearest(
    buf: Seq<u8>,
    grid: Seq<(u32, u32)>,
    base_la: int,
    base_lo: int,
    dla: int,
    r: int,
    lat_q: i64,
    lon_q: i64,
    best: Option<(i64, CityHit)>,
)
    ensures
        city_square(buf, grid, base_la, base_lo, dla, r, lat_q, lon_q, best) matches Some(res) ==> keeps_nearest(
            best,
            res,
            square_dists(buf, grid, base_la, base_lo, dla, r, lat_q, lon_q),
            lat_q,
            lon_q,
        ),
    decreases r - dla + 1,
{
    if dla <= r {
        lemma_row_nearest(buf, grid, base_la + dla, base_lo, -r, r, lat_q, lon_q, best);
        match city_row(buf, grid, base_la + dla, base_lo, -r, r, lat_q, lon_q, best) {
            None => {},
            Some(b2) => {
                lemma_square_nearest(buf, grid, base_la, base_lo, dla + 1, r, lat_q, lon_q, b2);
                match city_square(buf, grid, base_la, base_lo, dla + 1, r, lat_q, lon_q, b2) {
                    None => {},
                    Some(res) => {
                        lemma_keeps_nearest_chain(
                            best,
                            b2,
                            res,
                            row_dists(buf, grid, base_la + dla, base_lo, -r, r, lat_q, lon_q),
                            square_dists(buf, grid, base_la, base_lo, dla + 1, r, lat_q, lon_q),
                            lat_q,
                            lon_q,
                        );
                    },
                }
            },
        }
    }
}

/// The city search finds a nearest city: it stops at the first square,
/// of radius `r`, `2r`, `4r`, ..., that holds a city, and the city it
/// returns is no farther from the query than any city in that square's
/// cells, its distance being that of its own coordinates.
pub proof fn law_city_search_nearest(
    buf: Seq<u8>,
    grid: Seq<(u32, u32)>,
    base_la: int,
    base_lo: int,
    r: int,
    lat_q: i64,
    lon_q: i64,
)
    ensures
        city_search(buf, grid, base_la, base_lo, r, lat_q, lon_q) matches Some(Some(b)) ==> exists|r2: int|
            #![trigger square_dists(buf, grid, base_la, base_lo, -r2, r2, lat_q, lon_q)]
            r <= r2 && dist2(b.1.lat as int, b.1.lon as int, lat_q as int, lon_q as int) == Some(b.0 as int)
                && forall|j: int|
                0 <= j < square_dists(buf, grid, base_la, base_lo, -r2, r2, lat_q, lon_q).len() ==> b.0
                    <= #[trigger] square_dists(buf, grid, base_la, base_lo, -r2, r2, lat_q, lon_q)[j],
    decreases 256 - r,
{
    if 1 <= r <= 256 {
        lemma_square_nearest(buf, grid, base_la, base_lo, -r, r, lat_q, lon_q, None);
        match city_square(buf, grid, base_la, base_lo, -r, r, lat_q, lon_q, None) {
            None => {},
            Some(b) => {
                if b is Some {
                    let witness = square_dists(buf, grid, base_la, base_lo, -r, r, lat_q, lon_q);
                    assert(forall|j: int| 0 <= j < witness.len() ==> (b->0).0 <= #[trigger] witness[j]);
                } else if r <= 200 && 2 * r <= 256 {
                    law_city_search_nearest(buf, grid, base_la, base_lo, 2 * r, lat_q, lon_q);
                }
            },
        }
    }
}

/// The squared distances of the postal points in the cell at `off`.
pub open spec fn pcell_dists(buf: Seq<u8>, off: int, lat_q: i64, lon_q: i64) -> Seq<int> {
    match varint_end(buf, off) {
        None => seq![],
        Some(e) => postal_dists(buf, e, varint_value(buf, off), 0, 0, lat_q, lon_q),
    }
}

/// The squared distances of the postal points in columns `dlo..=r` of row
/// `la` of a postal grid whose cells start at `base`.
pub open spec fn prow_dists(
    buf: Seq<u8>,
    base: int,
    grid: Seq<(u32, u32)>,
    la: int,
    base_lo: int,
    dlo: int,
    r: int,
    lat_q: i64,
    lon_q: i64,
) -> Seq<int>
    decreases r - dlo + 1,
{
    if dlo > r {
        seq![]
    } else {
        let lo = base_lo + dlo;
        let here = if 0 <= la < 18000 && 0 <= lo < 36000 {
            match grid_find(grid, la * 36000 + lo) {
                None => seq![],
                Some(off) => if base + off > buf.len() {
                    seq![]
                } else {
                    pcell_dists(buf.subrange(base + off, buf.len() as int), 0, lat_q, lon_q)
                },
            }
        } else {
            seq![]
        };
        here + prow_dists(buf, base, grid, la, base_lo, dlo + 1, r, lat_q, lon_q)
    }
}

/// The squared distances of the postal points in rows `dla..=r` of the
/// square of radius `r`.
pub open spec fn psquare_dists(
    buf: Seq<u8>,
    base: int,
    grid: Seq<(u32, u32)>,
    base_la: int,
    base_lo: int,
    dla: int,
    r: int,
    lat_q: i64,
    lon_q: i64,
) -> Seq<int>
    decreases r - dla + 1,
{
    if dla > r {
        seq![]
    } else {
        prow_dists(buf, base, grid, base_la + dla, base_lo, -r, r, lat_q, lon_q) + psquare_dists(
            buf,
            base,
            grid,
            base_la,
            base_lo,
            dla + 1,
            r,
            lat_q,
            lon_q,
        )
    }
}

/// What a postal scan keeps: a nearest point, which exists once a point
/// was read.
pub open spec fn keeps_nearest_code(best: Option<(i64, u32)>, res: Option<(i64, u32)>, dists: Seq<int>) -> bool {
    &&& (best is Some || dists.len() > 0) ==> res is Some
    &&& res matches Some(b) ==> {
        &&& (best matches Some(b0) ==> b.0 <= b0.0)
        &&& forall|j: int| 0 <= j < dists.len() ==> b.0 <= #[trigger] dists[j]
    }
}

/// Keeping the nearest point composes over consecutive scans.
proof fn lemma_keeps_nearest_code_chain(
    best: Option<(i64, u32)>,
    mid: Option<(i64, u32)>,
    res: Option<(i64, u32)>,
    d1: Seq<int>,
    d2: Seq<int>,
)
    requires
        keeps_nearest_code(best, mid, d1),
        keeps_nearest_code(mid, res, d2),
    ensures
        keeps_nearest_code(best, res, d1 + d2),
{
    let all = d1 + d2;
    assert forall|j: int| 0 <= j < all.len() && (res is Some) implies (res->0).0 <= #[trigger] all[j] by {
        if j < d1.len() {
            assert(all[j] == d1[j]);
        } else {
            assert(all[j] == d2[j - d1.len()]);
        }
    }
}

/// A scan of a row of postal cells keeps the nearest point.
proof fn lemma_prow_nearest(
    buf: Seq<u8>,
    base: int,
    grid: Seq<(u32, u32)>,
    la: int,
    base_lo: int,
    dlo: int,
    r: int,
    lat_q: i64,
    lon_q: i64,
    best: Option<(i64, u32)>,
)
    ensures
        postal_row(buf, base, grid, la, base_lo, dlo, r, lat_q, lon_q, best) matches Some(res)
            ==> keeps_nearest_code(best, res, prow_dists(buf, base, grid, la, base_lo, dlo, r, lat_q, lon_q)),
    decreases r - dlo + 1,
{
    if dlo <= r {
        let lo = base_lo + dlo;
        let inside = 0 <= la < 18000 && 0 <= lo < 36000;
        let found = grid_find(grid, la * 36000 + lo);
        let here = if inside {
            match found {
                None => Seq::<int>::empty(),
                Some(off) => if base + off > buf.len() {
                    Seq::<int>::empty()
                } else {
                    pcell_dists(buf.subrange(base + off, buf.len() as int), 0, lat_q, lon_q)
                },
            }
        } else {
            Seq::<int>::empty()
        };
        let step = if inside {
            match found {
                None => Some(best),
                Some(off) => if base + off > buf.len() {
                    None
                } else {
                    scan_postal_cell_spec(buf.subrange(base + off, buf.len() as int), 0, lat_q, lon_q, best)
                },
            }
        } else {
            Some(best)
        };
        if inside {
            match found {
                None => {},
                Some(off) => {
                    if base + off <= buf.len() {
                        let cell = buf.subrange(base + off, buf.len() as int);
                        match varint_end(cell, 0) {
                            None => {},
                            Some(e) => law_postal_scan_nearest(cell, e, varint_value(cell, 0), 0, 0, lat_q, lon_q, best),
                        }
                    }
                },
            }
        }
        match step {
            None => {},
            Some(b2) => {
                lemma_prow_nearest(buf, base, grid, la, base_lo, dlo + 1, r, lat_q, lon_q, b2);
                match postal_row(buf, base, grid, la, base_lo, dlo + 1, r, lat_q, lon_q, b2) {
                    None => {},
                    Some(res) => {
                        lemma_keeps_nearest_code_chain(
                            best,
                            b2,
                            res,
                            here,
                            prow_dists(buf, base, grid, la, base_lo, dlo + 1, r, lat_q, lon_q),
                        );
                    },
                }
            },
        }
    }
}

/// A scan of the rows of a postal square keeps the nearest point.
proof fn lemma_psquare_nearest(
    buf: Seq<u8>,
    base: int,
    grid: Seq<(u32, u32)>,
    base_la: int,
    base_lo: int,
    dla: int,
    r: int,
    lat_q: i64,
    lon_q: i64,
    best: Option<(i64, u32)>,
)
    ensures
        postal_square(buf, base, grid, base_la, base_lo, dla, r, lat_q, lon_q, best) matches Some(res)
            ==> keeps_nearest_code(best, res, psquare_dists(buf, base, grid, base_la, base_lo, dla, r, lat_q, lon_q)),
    decreases r - dla + 1,
{
    if dla <= r {
        lemma_prow_nearest(buf, base, grid, base_la + dla, base_lo, -r, r, lat_q, lon_q, best);
        match postal_row(buf, base, grid, base_la + dla, base_lo, -r, r, lat_q, lon_q, best) {
            None => {},
            Some(b2) => {
                lemma_psquare_nearest(buf, base, grid, base_la, base_lo, dla + 1, r, lat_q, lon_q, b2);
                match postal_square(buf, base, grid, base_la, base_lo, dla + 1, r, lat_q, lon_q, b2) {
                    None => {},
                    Some(res) => {
                        lemma_keeps_nearest_code_chain(
                            best,
                            b2,
                            res,
                            prow_dists(buf, base, grid, base_la + dla, base_lo, -r, r, lat_q, lon_q),
                            psquare_dists(buf, base, grid, base_la, base_lo, dla + 1, r, lat_q, lon_q),
                        );
                    },
                }
            },
        }
    }
}

/// The postal search finds a nearest code: it stops at the first square,
/// of radius `r`, `2r`, `4r`, ..., that holds a point, and the point it
/// keeps is no farther from the query than any point in that square's
/// cells.
pub proof fn law_postal_search_nearest(
    buf: Seq<u8>,
    base: int,
    grid: Seq<(u32, u32)>,
    base_la: int,
    base_lo: int,
    r: int,
    lat_q: i64,
    lon_q: i64,
)
    ensures
        postal_search(buf, base, grid, base_la, base_lo, r, lat_q, lon_q) matches Some(Some(b)) ==> exists|r2: int|
            #![trigger psquare_dists(buf, base, grid, base_la, base_lo, -r2, r2, lat_q, lon_q)]
            r <= r2 && forall|j: int|
                0 <= j < psquare_dists(buf, base, grid, base_la, base_lo, -r2, r2, lat_q, lon_q).len() ==> b.0
                    <= #[trigger] psquare_dists(buf, base, grid, base_la, base_lo, -r2, r2, lat_q, lon_q)[j],
    decreases 1024 - r,
{
    if 1 <= r <= 1024 {
        lemma_psquare_nearest(buf, base, grid, base_la, base_lo, -r, r, lat_q, lon_q, None);
        match postal_square(buf, base, grid, base_la, base_lo, -r, r, lat_q, lon_q, None) {
            None => {},
            Some(b) => {
                if b is Some {
                    let witness = psquare_dists(buf, base, grid, base_la, base_lo, -r, r, lat_q, lon_q);
                    assert(forall|j: int| 0 <= j < witness.len() ==> (b->0).0 <= #[trigger] witness[j]);
                } else if r <= 1000 && 2 * r <= 1024 {
                    law_postal_search_nearest(buf, base, grid, base_la, base_lo, 2 * r, lat_q, lon_q);
                }
            },
        }
    }
}

} // verus!
