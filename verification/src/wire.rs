//! Little-endian integer reads, 24-bit signed values, LEB128 varints and
//! zigzag decoding over byte buffers.

use vstd::prelude::*;

verus! {

/// `256^n`.
pub open spec fn pow256(n: nat) -> nat
    decreases n,
{
    if n == 0 {
        1
    } else {
        256 * pow256((n - 1) as nat)
    }
}

/// `128^n`.
pub open spec fn pow128(n: nat) -> nat
    decreases n,
{
    if n == 0 {
        1
    } else {
        128 * pow128((n - 1) as nat)
    }
}

/// The number that a byte sequence spells in little-endian order.
pub open spec fn le_value(s: Seq<u8>) -> nat
    decreases s.len(),
{
    if s.len() == 0 {
        0
    } else {
        s[0] as nat + 256 * le_value(s.drop_first())
    }
}

/// The little-endian number of the `n` bytes of `s` that start at `off`.
pub open spec fn le_at(s: Seq<u8>, off: int, n: int) -> nat {
    le_value(s.subrange(off, off + n))
}

/// Whether `n` bytes starting at `off` lie inside a buffer of length `len`.
pub open spec fn fits(len: int, off: int, n: int) -> bool {
    0 <= off && 0 <= n && off + n <= len
}

pub proof fn lemma_pow256_pos(n: nat)
    ensures
        pow256(n) >= 1,
    decreases n,
{
    if n > 0 {
        lemma_pow256_pos((n - 1) as nat);
    }
}

pub proof fn lemma_pow128_pos(n: nat)
    ensures
        pow128(n) >= 1,
    decreases n,
{
    if n > 0 {
        lemma_pow128_pos((n - 1) as nat);
    }
}

/// A little-endian value of `n` bytes is below `256^n`.
pub proof fn lemma_le_bound(s: Seq<u8>)
    ensures
        le_value(s) < pow256(s.len()),
    decreases s.len(),
{
    if s.len() > 0 {
        lemma_le_bound(s.drop_first());
        assert(pow256(s.len()) == 256 * pow256((s.len() - 1) as nat));
    }
}

/// A window of `n <= 4` bytes holds a value below `2^32`.
pub proof fn lemma_le_at_bound(s: Seq<u8>, off: int, n: int)
    requires
        0 <= n <= 4,
        0 <= off,
        off + n <= s.len(),
    ensures
        le_at(s, off, n) < 0x1_0000_0000,
{
    let w = s.subrange(off, off + n);
    lemma_le_bound(w);
    assert(pow256(4) == 0x1_0000_0000) by {
        reveal_with_fuel(pow256, 5);
    }
    assert(pow256(w.len()) <= pow256(4)) by {
        reveal_with_fuel(pow256, 5);
    }
}

/// Splitting a byte sequence splits its little-endian value.
pub proof fn lemma_le_split(a: Seq<u8>, b: Seq<u8>)
    ensures
        le_value(a + b) == le_value(a) + pow256(a.len()) * le_value(b),
    decreases a.len(),
{
    if a.len() == 0 {
        assert(a + b =~= b);
        assert(le_value(a) == 0);
        assert(pow256(a.len()) == 1);
        assert(pow256(a.len()) * le_value(b) == le_value(b));
    } else {
        assert((a + b).drop_first() =~= a.drop_first() + b);
        lemma_le_split(a.drop_first(), b);
        lemma_le_split_step(a, b);
    }
}

proof fn lemma_le_split_step(a: Seq<u8>, b: Seq<u8>)
    requires
        a.len() > 0,
        (a + b).drop_first() == a.drop_first() + b,
        le_value(a.drop_first() + b) == le_value(a.drop_first()) + pow256(
            a.drop_first().len(),
        ) * le_value(b),
    ensures
        le_value(a + b) == le_value(a) + pow256(a.len()) * le_value(b),
{
    let x = le_value(a.drop_first());
    let y = le_value(b);
    let p = pow256((a.len() - 1) as nat);
    let a0 = a[0] as nat;
    assert(pow256(a.len()) == 256 * p);
    assert((a + b)[0] == a[0]);
    assert(le_value(a + b) == a0 + 256 * le_value(a.drop_first() + b));
    assert(le_value(a) == a0 + 256 * x);
    assert(a0 + 256 * (x + p * y) == (a0 + 256 * x) + (256 * p) * y) by (nonlinear_arith);
}

/// The value of a window is its first byte plus 256 times the rest.
pub proof fn lemma_le_at_step(s: Seq<u8>, off: int, n: int)
    requires
        0 <= off,
        0 < n,
        off + n <= s.len(),
    ensures
        le_at(s, off, n) == s[off] as nat + 256 * le_at(s, off + 1, n - 1),
{
    assert(s.subrange(off, off + n).drop_first() =~= s.subrange(off + 1, off + n));
}

/// A window splits at an inner position.
pub proof fn lemma_le_at_split(s: Seq<u8>, off: int, n: int, m: int)
    requires
        0 <= off,
        0 <= m <= n,
        off + n <= s.len(),
    ensures
        le_at(s, off, n) == le_at(s, off, m) + pow256(m as nat) * le_at(s, off + m, n - m),
{
    assert(s.subrange(off, off + n) =~= s.subrange(off, off + m) + s.subrange(
        off + m,
        off + n,
    ));
    lemma_le_split(s.subrange(off, off + m), s.subrange(off + m, off + n));
}

/// Reads `n <= 8` bytes at `offset` as a little-endian number.
pub fn read_le(bytes: &[u8], offset: usize, n: usize) -> (r: u64)
    requires
        n <= 8,
        fits(bytes@.len() as int, offset as int, n as int),
    ensures
        r == le_at(bytes@, offset as int, n as int),
        r < pow256(n as nat),
{
    let mut acc: u64 = 0;
    let mut k: usize = n;
    proof {
        assert(bytes@.subrange(offset + n, offset + n) =~= Seq::<u8>::empty());
        assert(pow256(0) == 1);
    }
    while k > 0
        invariant
            k <= n <= 8,
            offset + n <= bytes.len(),
            acc == le_at(bytes@, offset + k, (n - k) as int),
            acc < pow256((n - k) as nat),
        decreases k,
    {
        k = k - 1;
        let b = bytes[offset + k];
        proof {
            lemma_le_at_step(bytes@, offset + k, (n - k) as int);
            assert(pow256((n - k) as nat) == 256 * pow256((n - k - 1) as nat));
            lemma_pow_le_8((n - k - 1) as nat);
            assert(acc * 256 + b < pow256((n - k) as nat)) by (nonlinear_arith)
                requires
                    acc < pow256((n - k - 1) as nat),
                    b < 256,
                    pow256((n - k) as nat) == 256 * pow256((n - k - 1) as nat),
            ;
            assert(pow256((n - k) as nat) <= pow256(8));
            assert(pow256(8) == 0x1_0000_0000_0000_0000) by { reveal_with_fuel(pow256, 9); }
        }
        acc = acc * 256 + b as u64;
    }
    acc
}

/// `256^n` grows with `n`, up to `256^8`.
pub proof fn lemma_pow_le_8(n: nat)
    requires
        n < 8,
    ensures
        pow256(n + 1) <= pow256(8),
    decreases 8 - n,
{
    if n < 7 {
        lemma_pow_le_8(n + 1);
        lemma_pow256_pos(n + 1);
    }
    assert(pow256(n + 1) <= pow256(n + 2)) by {
        lemma_pow256_pos(n + 1);
    }
}

/// Little-endian `u16` at `offset`.
pub fn u16le(bytes: &[u8], offset: usize) -> (r: u16)
    requires
        fits(bytes@.len() as int, offset as int, 2),
    ensures
        r == le_at(bytes@, offset as int, 2),
{
    let v = read_le(bytes, offset, 2);
    proof {
        assert(pow256(2) == 65536) by { reveal_with_fuel(pow256, 3); }
    }
    v as u16
}

/// Little-endian unsigned 24-bit value at `offset`.
pub fn u24le(bytes: &[u8], offset: usize) -> (r: u32)
    requires
        fits(bytes@.len() as int, offset as int, 3),
    ensures
        r == le_at(bytes@, offset as int, 3),
        r < 0x100_0000,
{
    let v = read_le(bytes, offset, 3);
    proof {
        assert(pow256(3) == 0x100_0000) by { reveal_with_fuel(pow256, 4); }
    }
    v as u32
}

/// Little-endian `u32` at `offset`.
pub fn u32le(bytes: &[u8], offset: usize) -> (r: u32)
    requires
        fits(bytes@.len() as int, offset as int, 4),
    ensures
        r == le_at(bytes@, offset as int, 4),
{
    let v = read_le(bytes, offset, 4);
    proof {
        assert(pow256(4) == 0x1_0000_0000) by { reveal_with_fuel(pow256, 5); }
    }
    v as u32
}

/// Little-endian `u64` at `offset`.
pub fn u64le(bytes: &[u8], offset: usize) -> (r: u64)
    requires
        fits(bytes@.len() as int, offset as int, 8),
    ensures
        r == le_at(bytes@, offset as int, 8),
{
    read_le(bytes, offset, 8)
}

/// Little-endian `u128` at `offset`.
pub fn u128_le(bytes: &[u8], offset: usize) -> (r: u128)
    requires
        fits(bytes@.len() as int, offset as int, 16),
    ensures
        r == le_at(bytes@, offset as int, 16),
{
    let len = bytes.len();
    let lo = u64le(bytes, offset) as u128;
    let hi = u64le(bytes, offset + 8) as u128;
    proof {
        lemma_le_at_split(bytes@, offset as int, 16, 8);
        assert(pow256(8) == 0x1_0000_0000_0000_0000) by { reveal_with_fuel(pow256, 9); }
        assert(hi * 0x1_0000_0000_0000_0000 + lo < 0x1_0000_0000_0000_0000_0000_0000_0000_0000)
            by (nonlinear_arith)
            requires
                hi < 0x1_0000_0000_0000_0000,
                lo < 0x1_0000_0000_0000_0000,
        ;
    }
    let r = hi * 0x1_0000_0000_0000_0000 + lo;
    proof {
        let p = pow256(8);
        assert(lo == le_at(bytes@, offset as int, 8));
        assert(hi == le_at(bytes@, offset + 8, 8));
        assert(p == 0x1_0000_0000_0000_0000);
        assert(r == lo + p * hi) by (nonlinear_arith)
            requires
                p == 0x1_0000_0000_0000_0000,
                r == hi * 0x1_0000_0000_0000_0000 + lo,
        ;
    }
    r
}

/// The number that a byte sequence spells in big-endian order.
pub open spec fn be_value(s: Seq<u8>) -> nat
    decreases s.len(),
{
    if s.len() == 0 {
        0
    } else {
        be_value(s.drop_last()) * 256 + s.last() as nat
    }
}

/// Big-endian `u128` at `offset`.
pub fn u128_be(bytes: &[u8], offset: usize) -> (r: u128)
    requires
        fits(bytes@.len() as int, offset as int, 16),
    ensures
        r == be_value(bytes@.subrange(offset as int, offset + 16)),
{
    let mut acc: u128 = 0;
    let mut k: usize = 0;
    while k < 16
        invariant
            k <= 16,
            offset + 16 <= bytes.len(),
            acc == be_value(bytes@.subrange(offset as int, offset + k)),
            acc < pow256(k as nat),
        decreases 16 - k,
    {
        let b = bytes[offset + k];
        proof {
            let w = bytes@.subrange(offset as int, offset + k + 1);
            assert(w.drop_last() =~= bytes@.subrange(offset as int, offset + k));
            assert(pow256((k + 1) as nat) == 256 * pow256(k as nat));
            assert(acc * 256 + b < pow256((k + 1) as nat)) by (nonlinear_arith)
                requires
                    acc < pow256(k as nat),
                    b < 256,
                    pow256((k + 1) as nat) == 256 * pow256(k as nat),
            ;
            lemma_pow_le_16(k as nat);
            assert(pow256(16) == 0x1_0000_0000_0000_0000_0000_0000_0000_0000) by { reveal_with_fuel(pow256, 17); }
        }
        acc = acc * 256 + b as u128;
        k = k + 1;
    }
    acc
}

/// `256^n` grows with `n`, up to `256^16`.
pub proof fn lemma_pow_le_16(n: nat)
    requires
        n < 16,
    ensures
        pow256(n + 1) <= pow256(16),
    decreases 16 - n,
{
    if n < 15 {
        lemma_pow_le_16(n + 1);
    }
    lemma_pow256_pos(n + 1);
}

/// A 24-bit two's-complement value read as a signed integer.
pub open spec fn i24_value(v: int) -> int {
    if v >= 0x80_0000 {
        v - 0x100_0000
    } else {
        v
    }
}

/// Little-endian signed 24-bit value at `offset`.
pub fn i24le(bytes: &[u8], offset: usize) -> (r: i32)
    requires
        fits(bytes@.len() as int, offset as int, 3),
    ensures
        r == i24_value(le_at(bytes@, offset as int, 3) as int),
{
    let value = u24le(bytes, offset);
    if value >= 0x80_0000 {
        value as i32 - 0x100_0000
    } else {
        value as i32
    }
}

/// Where a varint that begins at `i` ends (one past its last byte), if it
/// ends within `s` and within ten bytes of `start`.
pub open spec fn varint_end_from(s: Seq<u8>, start: int, i: int) -> Option<int>
    decreases start + 10 - i,
{
    if i < start || i >= start + 10 || i >= s.len() || i < 0 {
        None
    } else if s[i] < 128 {
        Some(i + 1)
    } else {
        varint_end_from(s, start, i + 1)
    }
}

/// Where the varint at `start` ends, if it is readable.
pub open spec fn varint_end(s: Seq<u8>, start: int) -> Option<int> {
    varint_end_from(s, start, start)
}

/// The seven-bit groups of `s[start..end]`, least significant first.
pub open spec fn varint_sum(s: Seq<u8>, start: int, end: int) -> nat
    decreases end - start,
{
    if end <= start {
        0
    } else {
        varint_sum(s, start, end - 1) + (s[end - 1] % 128) as nat * pow128(
            (end - 1 - start) as nat,
        )
    }
}

/// The value of the varint at `start`, wrapped to 64 bits as the shifts
/// into a `u64` wrap.
pub open spec fn varint_value(s: Seq<u8>, start: int) -> nat {
    varint_sum(s, start, varint_end(s, start)->0) % 0x1_0000_0000_0000_0000
}

proof fn lemma_varint_sum_bound(s: Seq<u8>, start: int, end: int)
    requires
        start <= end,
    ensures
        varint_sum(s, start, end) < pow128((end - start) as nat),
    decreases end - start,
{
    if end > start {
        lemma_varint_sum_bound(s, start, end - 1);
        let p = pow128((end - 1 - start) as nat);
        assert(pow128((end - start) as nat) == 128 * p);
        let b = (s[end - 1] % 128) as nat;
        assert(varint_sum(s, start, end - 1) + b * p < 128 * p) by (nonlinear_arith)
            requires
                varint_sum(s, start, end - 1) < p,
                b < 128,
        ;
    }
}

proof fn lemma_varint_end_props(s: Seq<u8>, start: int, i: int)
    requires
        varint_end_from(s, start, i) is Some,
    ensures
        i < varint_end_from(s, start, i)->0 <= start + 10,
        varint_end_from(s, start, i)->0 <= s.len(),
        start <= i,
        s[varint_end_from(s, start, i)->0 - 1] < 128,
        forall|j: int| i <= j < varint_end_from(s, start, i)->0 - 1 ==> s[j] >= 128,
    decreases start + 10 - i,
{
    if s[i] >= 128 {
        lemma_varint_end_props(s, start, i + 1);
    }
}

/// Decodes the LEB128 varint at `start`: its value and the number of bytes
/// it took.
pub fn varint(d: &[u8], start: usize) -> (r: (u64, usize))
    requires
        varint_end(d@, start as int) is Some,
    ensures
        r.0 == varint_value(d@, start as int),
        start + r.1 == varint_end(d@, start as int)->0,
        start + r.1 <= d@.len(),
        1 <= r.1 <= 10,
{
    let ghost end = varint_end(d@, start as int)->0;
    proof {
        lemma_varint_end_props(d@, start as int, start as int);
    }
    let mut value: u64 = 0;
    let mut mult: u64 = 1;
    let mut i: usize = 0;
    loop
        invariant
            start + i < end <= start + 10,
            end <= d.len(),
            varint_end(d@, start as int) == Some(end),
            d@[end - 1] < 128,
            forall|j: int| start <= j < end - 1 ==> d@[j] >= 128,
            value == varint_sum(d@, start as int, start + i),
            mult == pow128(i as nat),
            i < 10,
        decreases end - start - i,
    {
        let byte = d[start + i];
        proof {
            lemma_varint_sum_bound(d@, start as int, start + i + 1);
            lemma_pow128_pos(i as nat);
        }
        if i < 9 {
            proof {
                assert(pow128(9) == 0x8000_0000_0000_0000) by { reveal_with_fuel(pow128, 10); }
                lemma_pow128_mono(i as nat + 1, 9);
                assert(varint_sum(d@, start as int, start + i + 1) < 0x8000_0000_0000_0000);
                assert((byte % 128) as nat * mult <= varint_sum(d@, start as int, start + i + 1));
            }
            value = value + (byte % 128) as u64 * mult;
        } else {
            proof {
                assert(pow128(9) == 0x8000_0000_0000_0000) by { reveal_with_fuel(pow128, 10); }
                assert(value < 0x8000_0000_0000_0000) by {
                    lemma_varint_sum_bound(d@, start as int, start + i);
                }
                let t = (byte % 128) as nat;
                assert((value + t * 0x8000_0000_0000_0000) % 0x1_0000_0000_0000_0000 == value
                    + (byte % 2) as nat * 0x8000_0000_0000_0000) by (nonlinear_arith)
                    requires
                        value < 0x8000_0000_0000_0000,
                        t == (byte % 128) as nat,
                        byte < 256,
                ;
                assert(byte < 128);
            }
            value = value + (byte % 2) as u64 * 0x8000_0000_0000_0000;
            i = i + 1;
            proof {
                assert(varint_sum(d@, start as int, start + i) % 0x1_0000_0000_0000_0000 == value);
            }
            return (value, i);
        }
        i = i + 1;
        if byte < 128 {
            proof {
                assert(start + i == end);
                lemma_varint_sum_bound(d@, start as int, start + i);
                assert(pow128(9) == 0x8000_0000_0000_0000) by { reveal_with_fuel(pow128, 10); }
                lemma_pow128_mono(i as nat, 9);
            }
            return (value, i);
        }
        proof {
            assert(pow128(i as nat) == 128 * pow128((i - 1) as nat));
            assert(pow128(9) == 0x8000_0000_0000_0000) by { reveal_with_fuel(pow128, 10); }
            lemma_pow128_mono(i as nat, 9);
        }
        mult = mult * 128;
    }
}

/// `128^n` grows with `n`.
pub proof fn lemma_pow128_mono(a: nat, b: nat)
    requires
        a <= b,
    ensures
        pow128(a) <= pow128(b),
    decreases b - a,
{
    if a < b {
        lemma_pow128_mono(a, (b - 1) as nat);
        lemma_pow128_pos((b - 1) as nat);
    }
}

/// The signed integer that a zigzag-encoded value stands for.
pub open spec fn zigzag_value(v: nat) -> int {
    if v % 2 == 0 {
        (v / 2) as int
    } else {
        -((v / 2) as int) - 1
    }
}

/// Zigzag encoding undone by decoding: every integer is the value of
/// exactly one code, `2n` for `n >= 0` and `-2n - 1` below zero.
pub proof fn law_zigzag_roundtrip(n: int, v: nat)
    ensures
        zigzag_value((if n >= 0 { 2 * n } else { -2 * n - 1 }) as nat) == n,
        zigzag_value(v) == n ==> v == (if n >= 0 { 2 * n } else { -2 * n - 1 }),
{
}

/// Zigzag decoding: `0, 1, 2, 3, ...` map to `0, -1, 1, -2, ...`.
pub fn zigzag(value: u64) -> (r: i64)
    ensures
        r == zigzag_value(value as nat),
{
    let half = (value / 2) as i64;
    if value % 2 == 0 {
        half
    } else {
        -half - 1
    }
}

/// `count` little-endian `u32` values starting at `offset`.
pub fn read_u32_array(bytes: &[u8], offset: usize, count: usize) -> (r: Vec<u32>)
    requires
        count == 0 || fits(bytes@.len() as int, offset as int, 4 * count),
    ensures
        r@.len() == count,
        forall|i: int| 0 <= i < count ==> r@[i] == le_at(bytes@, offset + 4 * i, 4),
{
    let mut out: Vec<u32> = Vec::new();
    let mut i: usize = 0;
    while i < count
        invariant
            i <= count,
            count == 0 || offset + 4 * count <= bytes.len(),
            out@.len() == i,
            forall|j: int| 0 <= j < i ==> out@[j] == le_at(bytes@, offset + 4 * j, 4),
        decreases count - i,
    {
        out.push(u32le(bytes, offset + i * 4));
        i = i + 1;
    }
    out
}

/// `count` little-endian `u64` values starting at `offset`.
pub fn read_u64_array(bytes: &[u8], offset: usize, count: usize) -> (r: Vec<u64>)
    requires
        count == 0 || fits(bytes@.len() as int, offset as int, 8 * count),
    ensures
        r@.len() == count,
        forall|i: int| 0 <= i < count ==> r@[i] == le_at(bytes@, offset + 8 * i, 8),
{
    let mut out: Vec<u64> = Vec::new();
    let mut i: usize = 0;
    while i < count
        invariant
            i <= count,
            count == 0 || offset + 8 * count <= bytes.len(),
            out@.len() == i,
            forall|j: int| 0 <= j < i ==> out@[j] == le_at(bytes@, offset + 8 * j, 8),
        decreases count - i,
    {
        out.push(u64le(bytes, offset + i * 8));
        i = i + 1;
    }
    out
}

/// `n` varints in a row from `p`: their values and where the last ends;
/// `None` where one of them is not readable.
pub open spec fn read_varints(d: Seq<u8>, p: int, n: nat) -> Option<(Seq<nat>, int)>
    decreases n,
{
    if n == 0 {
        Some((seq![], p))
    } else {
        match varint_end(d, p) {
            None => None,
            Some(e) => match read_varints(d, e, (n - 1) as nat) {
                None => None,
                Some(rest) => Some((seq![varint_value(d, p)] + rest.0, rest.1)),
            },
        }
    }
}

/// Whether the varint at `start` is readable.
pub fn varint_readable(d: &[u8], start: usize) -> (r: bool)
    ensures
        r == varint_end(d@, start as int) is Some,
{
    let mut i: usize = 0;
    while i < 10
        invariant
            i <= 10,
            varint_end(d@, start as int) == varint_end_from(d@, start as int, start + i),
        decreases 10 - i,
    {
        if start >= d.len() || i >= d.len() - start {
            return false;
        }
        if d[start + i] < 128 {
            return true;
        }
        i = i + 1;
    }
    false
}

} // verus!
