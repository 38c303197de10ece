//! Integers in the fewest little-endian bytes that hold them.
//!
//! A row stores an integer as a tag that names its type, sign and width,
//! followed by that many bytes, least significant first. A non-negative value
//! takes the bytes that hold its magnitude; a negative value takes the low
//! bytes of its two's complement form, the dropped high bytes all being
//! `0xff`.

use vstd::prelude::*;

verus! {

/// 256 to the power `n`.
pub open spec fn pow256(n: nat) -> int
    decreases n,
{
    if n == 0 {
        1
    } else {
        256 * pow256((n - 1) as nat)
    }
}

/// The `n` low bytes of `v`, least significant first. For a negative `v`
/// these are the low bytes of its two's complement form.
pub open spec fn le_bytes(v: int, n: nat) -> Seq<u8>
    decreases n,
{
    if n == 0 {
        Seq::<u8>::empty()
    } else {
        seq![(v % 256) as u8] + le_bytes(v / 256, (n - 1) as nat)
    }
}

/// The number that `b` spells, least significant byte first.
pub open spec fn le_value(b: Seq<u8>) -> int
    decreases b.len(),
{
    if b.len() == 0 {
        0
    } else {
        b[0] as int + 256 * le_value(b.drop_first())
    }
}

/// The number that `b` spells in two's complement, least significant byte
/// first.
pub open spec fn le_signed_value(b: Seq<u8>) -> int {
    if 2 * le_value(b) < pow256(b.len()) {
        le_value(b)
    } else {
        le_value(b) - pow256(b.len())
    }
}

/// The fewest bytes that hold the magnitude `v`: the least `n` with
/// `v < 256^n`.
pub open spec fn min_bytes(v: int) -> nat
    decreases v,
{
    if v <= 0 {
        0
    } else {
        1 + min_bytes(v / 256)
    }
}

/// The fewest bytes from which a signed `v` can be restored when its sign is
/// known: those of `v` itself, or of its complement `-v - 1` where `v` is
/// negative.
pub open spec fn min_bytes_signed_spec(v: int) -> nat {
    if v >= 0 {
        min_bytes(v)
    } else {
        min_bytes(-v - 1)
    }
}

pub proof fn lemma_pow256_values()
    ensures
        pow256(0) == 1,
        pow256(1) == 0x100,
        pow256(2) == 0x1_0000,
        pow256(3) == 0x100_0000,
        pow256(4) == 0x1_0000_0000,
        pow256(5) == 0x100_0000_0000,
        pow256(6) == 0x1_0000_0000_0000,
        pow256(7) == 0x100_0000_0000_0000,
        pow256(8) == 0x1_0000_0000_0000_0000,
        pow256(16) == 0x1_0000_0000_0000_0000_0000_0000_0000_0000,
{
    reveal_with_fuel(pow256, 9);
    assert(pow256(8) == 0x1_0000_0000_0000_0000);
    assert(pow256(12) == 0x1_0000_0000 * pow256(8));
    assert(pow256(16) == 0x1_0000_0000 * pow256(12));
}

pub proof fn lemma_pow256_positive(n: nat)
    ensures
        pow256(n) >= 1,
    decreases n,
{
    if n > 0 {
        lemma_pow256_positive((n - 1) as nat);
    }
}

pub proof fn lemma_pow256_monotonic(a: nat, b: nat)
    requires
        a <= b,
    ensures
        pow256(a) <= pow256(b),
    decreases b,
{
    if a < b {
        lemma_pow256_monotonic(a, (b - 1) as nat);
        lemma_pow256_positive((b - 1) as nat);
    }
}

pub proof fn lemma_le_bytes_len(v: int, n: nat)
    ensures
        le_bytes(v, n).len() == n,
    decreases n,
{
    if n > 0 {
        lemma_le_bytes_len(v / 256, (n - 1) as nat);
    }
}

pub proof fn lemma_le_value_bounds(b: Seq<u8>)
    ensures
        0 <= le_value(b) < pow256(b.len()),
    decreases b.len(),
{
    if b.len() > 0 {
        lemma_le_value_bounds(b.drop_first());
    }
}

/// Reading back the `n` low bytes of `v` gives `v` where it fits in them,
/// and `v + 256^n` where `v` is negative and its complement fits.
pub proof fn lemma_le_roundtrip(v: int, n: nat)
    requires
        -pow256(n) <= v < pow256(n),
    ensures
        le_value(le_bytes(v, n)) == if v >= 0 {
            v
        } else {
            v + pow256(n)
        },
    decreases n,
{
    if n > 0 {
        let rest = le_bytes(v / 256, (n - 1) as nat);
        assert(le_bytes(v, n).drop_first() =~= rest);
        lemma_le_roundtrip(v / 256, (n - 1) as nat);
    }
}

/// Spelling the number that `b` spells gives `b` again.
pub proof fn lemma_le_bytes_of_value(b: Seq<u8>)
    ensures
        le_bytes(le_value(b), b.len()) == b,
    decreases b.len(),
{
    if b.len() > 0 {
        lemma_le_bytes_of_value(b.drop_first());
        let v = le_value(b);
        assert(v % 256 == b[0] as int);
        assert(v / 256 == le_value(b.drop_first()));
        assert(le_bytes(v, b.len()) =~= b);
    } else {
        assert(le_bytes(0, 0) =~= b);
    }
}

/// Adding `256^n` to a number leaves its `n` low bytes as they are.
pub proof fn lemma_le_bytes_wrap(v: int, n: nat)
    ensures
        le_bytes(v + pow256(n), n) == le_bytes(v, n),
    decreases n,
{
    if n > 0 {
        let p = pow256((n - 1) as nat);
        assert((v + 256 * p) % 256 == v % 256);
        assert((v + 256 * p) / 256 == v / 256 + p);
        lemma_le_bytes_wrap(v / 256, (n - 1) as nat);
    }
}

/// Splitting a spelling: the first `k` bytes and the rest.
pub proof fn lemma_le_value_split(b: Seq<u8>, k: nat)
    requires
        k <= b.len(),
    ensures
        le_value(b) == le_value(b.take(k as int)) + pow256(k) * le_value(b.skip(k as int)),
    decreases k,
{
    if k == 0 {
        assert(b.skip(0) =~= b);
        assert(b.take(0) =~= Seq::<u8>::empty());
    } else {
        let t = b.drop_first();
        lemma_le_value_split(t, (k - 1) as nat);
        assert(t.take(k - 1) =~= b.take(k as int).drop_first());
        assert(t.skip(k - 1) =~= b.skip(k as int));
        assert(b.take(k as int)[0] == b[0]);
        let hi = le_value(b.skip(k as int));
        let p = pow256((k - 1) as nat);
        assert(256 * (p * hi) == (256 * p) * hi) by (nonlinear_arith);
    }
}

/// Reading back in two's complement the `n` low bytes of a number that
/// fits in them gives that number.
pub proof fn lemma_le_signed_roundtrip(v: int, n: nat)
    requires
        n >= 1,
        -pow256(n) <= 2 * v < pow256(n),
    ensures
        le_signed_value(le_bytes(v, n)) == v,
{
    lemma_le_bytes_len(v, n);
    lemma_pow256_positive((n - 1) as nat);
    lemma_le_roundtrip(v, n);
}

pub proof fn lemma_min_bytes_fits(v: int)
    requires
        0 <= v,
    ensures
        v < pow256(min_bytes(v)),
    decreases v,
{
    if v > 0 {
        lemma_min_bytes_fits(v / 256);
    }
}

pub proof fn lemma_min_bytes_least(v: int, n: nat)
    requires
        0 <= v,
        n < min_bytes(v),
    ensures
        v >= pow256(n),
    decreases n,
{
    if n > 0 {
        lemma_min_bytes_least(v / 256, (n - 1) as nat);
    }
}

pub proof fn lemma_min_bytes_bound(v: int, n: nat)
    requires
        0 <= v < pow256(n),
    ensures
        min_bytes(v) <= n,
    decreases n,
{
    if v > 0 {
        if n == 0 {
        } else {
            lemma_min_bytes_bound(v / 256, (n - 1) as nat);
        }
    }
}

/// The fewest bytes that hold `v`.
pub fn min_bytes_unsigned(v: u64) -> (n: u8)
    ensures
        n == min_bytes(v as int),
        n <= 8,
{
    let mut rest: u64 = v;
    let mut n: u8 = 0;
    proof {
        lemma_pow256_values();
        lemma_min_bytes_bound(v as int, 8);
    }
    while rest > 0
        invariant
            min_bytes(v as int) == n + min_bytes(rest as int),
            min_bytes(v as int) <= 8,
        decreases rest,
    {
        rest = rest / 256;
        n = n + 1;
    }
    n
}

/// The fewest bytes from which `v` can be restored when its sign is known.
pub fn min_bytes_signed(v: i64) -> (n: u8)
    ensures
        n == min_bytes_signed_spec(v as int),
        n <= 8,
{
    if v >= 0 {
        min_bytes_unsigned(v as u64)
    } else {
        min_bytes_unsigned((-(v + 1)) as u64)
    }
}

/// The `n` low bytes of `v`, least significant first.
pub fn le_bytes_of(v: u64, n: u8) -> (out: Vec<u8>)
    requires
        n <= 8,
    ensures
        out@ == le_bytes(v as int, n as nat),
{
    let mut out: Vec<u8> = Vec::new();
    let mut rest: u64 = v;
    let mut k: u8 = 0;
    while k < n
        invariant
            k <= n,
            out@ + le_bytes(rest as int, (n - k) as nat) == le_bytes(v as int, n as nat),
        decreases n - k,
    {
        let ghost before = out@;
        out.push((rest % 256) as u8);
        proof {
            let tail = le_bytes((rest / 256) as int, (n - k - 1) as nat);
            assert(before + (seq![(rest % 256) as u8] + tail) =~= out@ + tail);
        }
        rest = rest / 256;
        k = k + 1;
    }
    assert(out@ + Seq::<u8>::empty() =~= out@);
    out
}

/// The `n` low bytes of the two's complement form of `v`.
pub fn le_bytes_of_signed(v: i64, n: u8) -> (out: Vec<u8>)
    requires
        n <= 8,
        -pow256(n as nat) <= v < pow256(n as nat),
    ensures
        out@ == le_bytes(v as int, n as nat),
{
    if v >= 0 {
        le_bytes_of(v as u64, n)
    } else {
        proof {
            lemma_pow256_values();
            lemma_le_bytes_wrap(v as int, n as nat);
        }
        // With `m = -v - 1` the wanted bytes are those of `256^n - 1 - m`.
        let m: u64 = (-(v + 1)) as u64;
        let top: u64 = all_ones(n);
        le_bytes_of(top - m, n)
    }
}

/// `256^n - 1`: `n` bytes of `0xff`.
fn all_ones(n: u8) -> (r: u64)
    requires
        n <= 8,
    ensures
        r == pow256(n as nat) - 1,
{
    proof {
        lemma_pow256_values();
    }
    if n == 0 {
        0
    } else if n == 1 {
        0xff
    } else if n == 2 {
        0xffff
    } else if n == 3 {
        0xff_ffff
    } else if n == 4 {
        0xffff_ffff
    } else if n == 5 {
        0xff_ffff_ffff
    } else if n == 6 {
        0xffff_ffff_ffff
    } else if n == 7 {
        0xff_ffff_ffff_ffff
    } else {
        0xffff_ffff_ffff_ffff
    }
}

/// The number that the `n` bytes of `data` from `pos` on spell.
pub fn le_value_of(data: &[u8], pos: usize, n: u8) -> (r: u64)
    requires
        n <= 8,
        pos + n <= data@.len(),
    ensures
        r == le_value(data@.subrange(pos as int, pos + n)),
{
    let ghost whole = data@.subrange(pos as int, pos + n);
    let len = data.len();
    let mut r: u64 = 0;
    let mut k: u8 = n;
    proof {
        assert(whole.skip(n as int) =~= Seq::<u8>::empty());
    }
    while k > 0
        invariant
            k <= n <= 8,
            pos + n <= data@.len() == len,
            whole == data@.subrange(pos as int, pos + n),
            r == le_value(whole.skip(k as int)),
        decreases k,
    {
        k = k - 1;
        let byte = data[pos + k as usize];
        proof {
            let tail = whole.skip(k as int);
            assert(tail.drop_first() =~= whole.skip(k + 1));
            assert(tail[0] == byte);
            assert(whole.skip(k + 1).len() == n - k - 1);
            lemma_le_value_bounds(whole.skip(k + 1));
            lemma_pow256_monotonic((n - k - 1) as nat, 7);
            lemma_pow256_values();
        }
        r = r * 256 + byte as u64;
    }
    assert(whole.skip(0) =~= whole);
    r
}

/// The number that the `n` bytes of `data` from `pos` on spell in two's
/// complement.
pub fn signed_value_of(data: &[u8], pos: usize, n: u8) -> (r: i64)
    requires
        1 <= n <= 8,
        pos + n <= data@.len(),
    ensures
        r == le_signed_value(data@.subrange(pos as int, pos + n)),
        -pow256(n as nat) <= 2 * r < pow256(n as nat),
{
    let low = le_value_of(data, pos, n);
    let top = all_ones(n);
    proof {
        lemma_le_value_bounds(data@.subrange(pos as int, pos + n));
        lemma_pow256_values();
        lemma_pow256_monotonic(n as nat, 8);
        assert(pow256(n as nat) == 256 * pow256((n - 1) as nat));
    }
    if low <= top / 2 {
        low as i64
    } else {
        (low as i128 - top as i128 - 1) as i64
    }
}

/// The negative number whose `n` low two's complement bytes `data` holds
/// from `pos` on, all higher bytes being `0xff`.
pub fn negative_value_of(data: &[u8], pos: usize, n: u8) -> (r: i128)
    requires
        n <= 8,
        pos + n <= data@.len(),
    ensures
        r == le_value(data@.subrange(pos as int, pos + n)) - pow256(n as nat),
        r < 0,
{
    let low = le_value_of(data, pos, n);
    let top = all_ones(n);
    proof {
        lemma_le_value_bounds(data@.subrange(pos as int, pos + n));
    }
    low as i128 - top as i128 - 1
}

} // verus!
