//! From a truncated quotient to the bit pattern of the correctly rounded
//! result.
use crate::binary64::{
    datum_of, lemma_magnitude_of_increases, lemma_magnitude_of_infinity,
    lemma_magnitude_of_packed, Binary64, FRACTION_SPAN, INFINITY_BITS, SIGN_BIT,
};
use crate::datum::overflow_threshold;
use crate::rounding::{
    bounded, lemma_nearest_from_bracket, lemma_nearest_zero, nearest, rounded,
};
use vstd::arithmetic::power2::{
    lemma2_to64, lemma2_to64_rest, lemma_pow2_adds, lemma_pow2_pos,
    lemma_pow2_strictly_increases, lemma_pow2_unfold, pow2,
};
use vstd::prelude::*;

verus! {

/// Two to the 120th, the bound on the quotients handed to `round_to_nearest`.
pub const QUOTIENT_LIMIT: u128 = 0x100_0000_0000_0000_0000_0000_0000_0000;

/// Two to the 55th: a quotient this large keeps two bits below any
/// significand cut from it, enough to round by once the rest is known to be
/// zero or not.
pub const GUARDED: u128 = 0x80_0000_0000_0000;

/// The values of two powers of two beyond the 64th.
pub proof fn lemma_pow2_values()
    ensures
        pow2(120) == QUOTIENT_LIMIT,
        pow2(126) == 0x4000_0000_0000_0000_0000_0000_0000_0000,
{
    lemma2_to64_rest();
    lemma_pow2_adds(60, 60);
    lemma_pow2_adds(63, 63);
    assert(0x1000000000000000int * 0x1000000000000000int
        == 0x100_0000_0000_0000_0000_0000_0000_0000int) by (nonlinear_arith);
    assert(0x8000000000000000int * 0x8000000000000000int
        == 0x4000_0000_0000_0000_0000_0000_0000_0000int) by (nonlinear_arith);
}

/// Powers of two grow with the exponent.
pub proof fn lemma_pow2_increases(a: nat, b: nat)
    requires
        a <= b,
    ensures
        pow2(a) <= pow2(b),
{
    if a < b {
        lemma_pow2_strictly_increases(a, b);
    }
}

/// Two to the `k`.
pub(crate) fn power_of_two(k: u32) -> (p: u128)
    requires
        k <= 126,
    ensures
        p == pow2(k as nat),
{
    let mut p: u128 = 1;
    let mut i: u32 = 0;
    proof {
        lemma2_to64();
    }
    while i < k
        invariant
            i <= k <= 126,
            p == pow2(i as nat),
        decreases k - i,
    {
        proof {
            lemma_pow2_unfold((i + 1) as nat);
            lemma_pow2_increases((i + 1) as nat, 126);
            lemma_pow2_values();
        }
        p = p * 2;
        i = i + 1;
    }
    p
}

/// The number of bits needed to write `n`: zero for zero, and otherwise the
/// `t` with `2^(t-1) <= n < 2^t`.
pub(crate) fn bit_length(n: u128) -> (t: u32)
    requires
        n < QUOTIENT_LIMIT,
    ensures
        t <= 120,
        n < pow2(t as nat),
        t > 0 ==> pow2((t - 1) as nat) <= n,
        (t == 0) == (n == 0),
{
    let mut t: u32 = 0;
    let mut p: u128 = 1;
    proof {
        lemma2_to64();
        lemma_pow2_values();
    }
    while p <= n
        invariant
            n < QUOTIENT_LIMIT,
            pow2(120) == QUOTIENT_LIMIT,
            p == pow2(t as nat),
            t <= 120,
            t > 0 ==> pow2((t - 1) as nat) <= n,
            (t == 0) ==> p == 1,
        decreases 120 - t,
    {
        proof {
            lemma_pow2_unfold((t + 1) as nat);
            if t >= 120 {
                lemma_pow2_increases(120, t as nat);
            }
        }
        p = p * 2;
        t = t + 1;
    }
    proof {
        if t > 0 {
            lemma_pow2_pos((t - 1) as nat);
        }
    }
    t
}

/// What `round_to_nearest` is told about the value `num / den` quanta that it
/// rounds: `n` is the whole part of the value counted in units of `2^k`
/// quanta, and `rest` is what the division left over.
pub open spec fn truncates(num: nat, den: nat, n: nat, k: int, rest: nat) -> bool {
    if k >= 0 {
        num == n * (den * pow2(k as nat)) + rest && rest < den * pow2(k as nat)
    } else {
        num * pow2((-k) as nat) == n * den + rest && rest < den
    }
}

/// Rounding read off a truncated quotient. The value is `num / den`; scaled by
/// `c` it is `n + rest / s` units, the unit being `p` times finer than the
/// spacing `2^e` of the result. Cutting `n` into `m * p + r` leaves the
/// significand `m`, and `r` with `rest` decides the direction.
proof fn lemma_nearest_from_parts(
    num: nat,
    den: nat,
    e: nat,
    c: nat,
    s: nat,
    n: nat,
    rest: nat,
    p: nat,
    half: nat,
    m: nat,
    r: nat,
)
    requires
        den > 0,
        c > 0,
        s > 0,
        c * num == n * s + rest,
        rest < s,
        n == m * p + r,
        r < p,
        p == 2 * half,
        c * (den * pow2(e)) == s * p,
        m < pow2(53),
        e > 0 ==> m >= pow2(52),
    ensures
        nearest(num, den) == if r > half || (r == half && (rest > 0 || m % 2 == 1)) {
            (m + 1) * pow2(e)
        } else {
            m * pow2(e)
        },
{
    let step: int = (den * pow2(e)) as int;
    let mstep: int = m * step;
    let cs: int = c * step;
    let rs: int = (r * s) as int;
    let hs: int = (half * s) as int;
    let y: int = rs + rest;
    assert(c * num == m * cs + y) by (nonlinear_arith)
        requires
            c * num == n * s + rest,
            n == m * p + r,
            cs == s * p,
            rs == r * s,
            y == rs + rest,
    ;
    assert(cs == 2 * hs) by (nonlinear_arith)
        requires
            cs == s * p,
            p == 2 * half,
            hs == half * s,
    ;
    assert(rs + s <= cs) by (nonlinear_arith)
        requires
            rs == r * s,
            cs == s * p,
            r + 1 <= p,
            s > 0,
    ;
    assert(c * mstep == m * cs) by (nonlinear_arith)
        requires
            mstep == m * step,
            cs == c * step,
    ;
    let x: int = num - mstep;
    assert(c * x == y) by (nonlinear_arith)
        requires
            c * num == m * cs + y,
            c * mstep == m * cs,
            x == num - mstep,
    ;
    assert(0 <= x < step) by (nonlinear_arith)
        requires
            c > 0,
            c * x == y,
            0 <= y < cs,
            cs == c * step,
    ;
    assert((m + 1) * step == mstep + step) by (nonlinear_arith)
        requires
            mstep == m * step,
    ;
    lemma_nearest_from_bracket(num, den, m, e);
    assert(c * (2 * x) == 2 * y) by (nonlinear_arith)
        requires
            c * x == y,
    ;
    if r > half {
        assert(rs >= hs + s) by (nonlinear_arith)
            requires
                rs == r * s,
                hs == half * s,
                r >= half + 1,
                s > 0,
        ;
        assert(2 * x > step) by (nonlinear_arith)
            requires
                c > 0,
                c * (2 * x) == 2 * y,
                2 * y > cs,
                cs == c * step,
        ;
    } else if r == half {
        if rest > 0 {
            assert(2 * x > step) by (nonlinear_arith)
                requires
                    c > 0,
                    c * (2 * x) == 2 * y,
                    2 * y > cs,
                    cs == c * step,
            ;
        } else {
            assert(2 * x == step) by (nonlinear_arith)
                requires
                    c > 0,
                    c * (2 * x) == 2 * y,
                    2 * y == cs,
                    cs == c * step,
            ;
        }
    } else {
        assert(rs + s <= hs) by (nonlinear_arith)
            requires
                rs == r * s,
                hs == half * s,
                r + 1 <= half,
                s > 0,
        ;
        assert(2 * x < step) by (nonlinear_arith)
            requires
                c > 0,
                c * (2 * x) == 2 * y,
                2 * y < cs,
                cs == c * step,
        ;
    }
}

/// The datum of a packed significand.
proof fn lemma_datum_of_packed(negative: bool, m: nat, e: nat, bits: u64)
    requires
        m <= pow2(53),
        e > 0 ==> m >= pow2(52),
        e <= 2045,
        bits == (if negative { SIGN_BIT as nat } else { 0 }) + e * pow2(52) + m,
    ensures
        datum_of(bits) == bounded(negative, m * pow2(e)),
{
    lemma2_to64_rest();
    let unsigned: nat = e * pow2(52) + m;
    assert(unsigned <= INFINITY_BITS);
    assert(unsigned == bits % SIGN_BIT);
    lemma_magnitude_of_packed(m, e);
    lemma_magnitude_of_infinity();
    if unsigned < INFINITY_BITS {
        lemma_magnitude_of_increases(unsigned, INFINITY_BITS as nat);
    }
}

/// A full significand at an exponent past the largest finite one overflows.
proof fn lemma_overflows(m: nat, e: nat)
    requires
        m >= pow2(52),
        e > 2045,
    ensures
        m * pow2(e) >= overflow_threshold(),
{
    lemma_pow2_increases(2046, e);
    lemma_pow2_adds(52, 2046);
    assert(pow2(52) * pow2(2046) <= m * pow2(e)) by (nonlinear_arith)
        requires
            pow2(52) <= m,
            pow2(2046) <= pow2(e),
    ;
}

/// The pattern of the given sign and magnitude bits.
pub(crate) fn with_sign(negative: bool, unsigned: u64) -> (r: Binary64)
    requires
        unsigned < SIGN_BIT,
    ensures
        r.bits == (if negative { SIGN_BIT as nat } else { 0 }) + unsigned,
{
    if negative {
        Binary64 { bits: SIGN_BIT + unsigned }
    } else {
        Binary64 { bits: unsigned }
    }
}

/// The number with significand `m` at spacing exponent `e`, or infinity where
/// that is out of range.
fn assemble(negative: bool, m: u64, e: i64) -> (r: Binary64)
    requires
        m <= pow2(53),
        0 <= e,
        e > 0 ==> m >= pow2(52),
    ensures
        r@ == bounded(negative, m as nat * pow2(e as nat)),
{
    proof {
        lemma2_to64_rest();
    }
    if e > 2045 {
        proof {
            lemma_overflows(m as nat, e as nat);
        }
        return with_sign(negative, INFINITY_BITS);
    }
    let unsigned: u64 = (e as u64) * FRACTION_SPAN + m;
    let r = with_sign(negative, unsigned);
    proof {
        lemma_datum_of_packed(negative, m as nat, e as nat, r.bits);
    }
    r
}

/// Rounds an exact quotient that is short enough to be shifted into place.
fn round_exact(
    negative: bool,
    n: u128,
    shift: u32,
    e: i64,
    Ghost(num): Ghost<nat>,
    Ghost(den): Ghost<nat>,
) -> (r: Binary64)
    requires
        den > 0,
        shift <= 52,
        0 <= e <= 8000,
        num == n * (den * pow2((e + shift) as nat)),
        n * pow2(shift as nat) < pow2(53),
        e > 0 ==> n * pow2(shift as nat) >= pow2(52),
    ensures
        r@ == rounded(negative, num, den),
{
    proof {
        lemma2_to64_rest();
    }
    let m: u64 = (n * power_of_two(shift)) as u64;
    proof {
        let step: nat = den * pow2(e as nat);
        lemma_pow2_adds(e as nat, shift as nat);
        assert(num == m * step) by (nonlinear_arith)
            requires
                num == n * (den * pow2((e + shift) as nat)),
                pow2((e + shift) as nat) == pow2(e as nat) * pow2(shift as nat),
                m == n * pow2(shift as nat),
                step == den * pow2(e as nat),
        ;
        lemma_pow2_pos(e as nat);
        assert(step > 0) by (nonlinear_arith)
            requires
                step == den * pow2(e as nat),
                den > 0,
                pow2(e as nat) > 0,
        ;
        assert((m + 1) * step == m * step + step) by (nonlinear_arith);
        lemma_nearest_from_bracket(num, den, m as nat, e as nat);
    }
    assemble(negative, m, e)
}

/// The significand that is left of `n` when it is divided by `p`, a power of
/// two, and rounded to nearest, ties to even. `sticky` says that the value
/// of which `n` is the whole part lies above `n`.
pub open spec fn cut(n: nat, p: nat, sticky: bool) -> nat {
    let m = n / p;
    let r = n % p;
    if 2 * r > p || (2 * r == p && (sticky || m % 2 == 1)) {
        m + 1
    } else {
        m
    }
}

/// Cuts the `d` low bits off `n`, rounding to nearest, and places the
/// significand that is left at spacing exponent `e`.
pub(crate) fn cut_and_assemble(negative: bool, n: u128, sticky: bool, d: u32, e: i64) -> (r: Binary64)
    requires
        1 <= d <= 120,
        0 <= e <= 8000,
        n < pow2(53) * pow2(d as nat),
        e > 0 ==> pow2(52) * pow2(d as nat) <= n,
    ensures
        r@ == bounded(negative, cut(n as nat, pow2(d as nat), sticky) * pow2(e as nat)),
{
    proof {
        lemma_pow2_pos(d as nat);
        lemma_pow2_unfold(d as nat);
    }
    let p: u128 = power_of_two(d);
    let half: u128 = p / 2;
    let q: u128 = n / p;
    let r: u128 = n % p;
    proof {
        lemma2_to64_rest();
        vstd::arithmetic::div_mod::lemma_fundamental_div_mod(n as int, p as int);
        assert(n == q * p + r) by (nonlinear_arith)
            requires
                n == p * q + r,
        ;
        assert(q < pow2(53)) by (nonlinear_arith)
            requires
                n == q * p + r,
                0 <= r,
                n < pow2(53) * p,
                p > 0,
        ;
        if e > 0 {
            assert(q >= pow2(52)) by (nonlinear_arith)
                requires
                    n == q * p + r,
                    r < p,
                    pow2(52) * p <= n,
            ;
        }
    }
    let m: u64 = q as u64;
    let up: bool = r > half || (r == half && (sticky || m % 2 == 1));
    let total: u64 = if up { m + 1 } else { m };
    assemble(negative, total, e)
}

/// Rounds a quotient from which `d` low bits have to be cut.
fn round_cut(
    negative: bool,
    n: u128,
    sticky: bool,
    d: u32,
    e: i64,
    Ghost(num): Ghost<nat>,
    Ghost(den): Ghost<nat>,
    Ghost(c): Ghost<nat>,
    Ghost(s): Ghost<nat>,
    Ghost(rest): Ghost<nat>,
) -> (r: Binary64)
    requires
        den > 0,
        c > 0,
        s > 0,
        1 <= d <= 120,
        0 <= e <= 8000,
        c * num == n * s + rest,
        rest < s,
        sticky == (rest != 0),
        c * (den * pow2(e as nat)) == s * pow2(d as nat),
        n < pow2(53) * pow2(d as nat),
        e > 0 ==> pow2(52) * pow2(d as nat) <= n,
    ensures
        r@ == rounded(negative, num, den),
{
    proof {
        let p: nat = pow2(d as nat);
        let m: nat = n as nat / p;
        let r: nat = n as nat % p;
        lemma2_to64_rest();
        lemma_pow2_pos(d as nat);
        lemma_pow2_unfold(d as nat);
        vstd::arithmetic::div_mod::lemma_fundamental_div_mod(n as int, p as int);
        assert(n == m * p + r) by (nonlinear_arith)
            requires
                n == p * m + r,
        ;
        assert(m < pow2(53)) by (nonlinear_arith)
            requires
                n == m * p + r,
                0 <= r,
                n < pow2(53) * p,
                p > 0,
        ;
        if e > 0 {
            assert(m >= pow2(52)) by (nonlinear_arith)
                requires
                    n == m * p + r,
                    r < p,
                    pow2(52) * p <= n,
            ;
        }
        lemma_nearest_from_parts(
            num,
            den,
            e as nat,
            c,
            s,
            n as nat,
            rest,
            p,
            pow2((d - 1) as nat),
            m,
            r,
        );
    }
    cut_and_assemble(negative, n, sticky, d, e)
}

/// The binary64 number nearest to `num / den` quanta, under the given sign.
///
/// The value arrives as the truncated quotient `n`, counted in units of `2^k`
/// quanta, with `sticky` telling whether anything was cut off. A quotient
/// that is not exact must have at least 56 bits.
pub(crate) fn round_to_nearest(
    negative: bool,
    n: u128,
    k: i64,
    sticky: bool,
    Ghost(num): Ghost<nat>,
    Ghost(den): Ghost<nat>,
    Ghost(rest): Ghost<nat>,
) -> (r: Binary64)
    requires
        den > 0,
        n < QUOTIENT_LIMIT,
        -4000 <= k <= 4000,
        truncates(num, den, n as nat, k as int, rest),
        sticky == (rest != 0),
        sticky ==> n >= GUARDED,
    ensures
        r@ == rounded(negative, num, den),
{
    if n == 0 {
        proof {
            lemma_pow2_pos(2098);
            if k >= 0 {
                assert(0 * (den * pow2(k as nat)) == 0) by (nonlinear_arith);
            } else {
                let c: nat = pow2((-k) as nat);
                lemma_pow2_pos((-k) as nat);
                assert(0 * den == 0) by (nonlinear_arith);
                assert(num == 0) by (nonlinear_arith)
                    requires
                        num * c == 0,
                        c > 0,
                ;
            }
            lemma_nearest_zero(den);
        }
        return with_sign(negative, 0);
    }
    let t: u32 = bit_length(n);
    let surplus: i64 = t as i64 - 53;
    let d: i64 = if surplus >= -k { surplus } else { -k };
    let e: i64 = k + d;
    if d <= 0 {
        let shift: u32 = (-d) as u32;
        proof {
            lemma_pow2_values();
            lemma2_to64_rest();
            lemma_pow2_adds(t as nat, shift as nat);
            lemma_pow2_increases((t + shift) as nat, 53);
            lemma_pow2_increases(t as nat, 53);
            lemma_pow2_pos(shift as nat);
            assert(rest == 0);
            assert(e + shift == k);
            assert(n * pow2(shift as nat) < pow2(t as nat) * pow2(shift as nat))
                by (nonlinear_arith)
                requires
                    n < pow2(t as nat),
                    pow2(shift as nat) > 0,
            ;
            if e > 0 {
                lemma_pow2_adds((t - 1) as nat, shift as nat);
                assert(pow2((t - 1) as nat) * pow2(shift as nat) <= n * pow2(shift as nat))
                    by (nonlinear_arith)
                    requires
                        pow2((t - 1) as nat) <= n,
                ;
            }
        }
        return round_exact(negative, n, shift, e, Ghost(num), Ghost(den));
    }
    if d > 120 {
        // The value lies below half a quantum.
        proof {
            let c: nat = pow2(d as nat);
            let half: nat = pow2((d - 1) as nat);
            lemma2_to64();
            lemma2_to64_rest();
            lemma_pow2_values();
            lemma_pow2_pos(2098);
            lemma_pow2_unfold(d as nat);
            lemma_pow2_pos(d as nat);
            lemma_pow2_increases(120, (d - 1) as nat);
            assert(c * (den * pow2(0)) == den * c) by (nonlinear_arith)
                requires
                    pow2(0) == 1,
            ;
            assert(n == 0 * c + n) by (nonlinear_arith);
            assert(c * num == n * den + rest) by (nonlinear_arith)
                requires
                    num * c == n * den + rest,
            ;
            lemma_nearest_from_parts(
                num,
                den,
                0,
                c,
                den,
                n as nat,
                rest,
                c,
                half,
                0,
                n as nat,
            );
            assert(0 * pow2(0) == 0) by (nonlinear_arith);
        }
        return with_sign(negative, 0);
    }
    let ghost c: nat = if k >= 0 { 1 } else { pow2((-k) as nat) };
    let ghost s: nat = if k >= 0 { den * pow2(k as nat) } else { den };
    proof {
        let p: nat = pow2(d as nat);
        lemma_pow2_pos(d as nat);
        lemma_pow2_increases(t as nat, (53 + d) as nat);
        lemma_pow2_adds(53, d as nat);
        if e > 0 {
            lemma_pow2_adds(52, d as nat);
        }
        if k >= 0 {
            lemma_pow2_adds(k as nat, d as nat);
            lemma_pow2_pos(k as nat);
            assert(s > 0) by (nonlinear_arith)
                requires
                    s == den * pow2(k as nat),
                    den > 0,
                    pow2(k as nat) > 0,
            ;
            assert(c * (den * pow2(e as nat)) == s * p) by (nonlinear_arith)
                requires
                    c == 1,
                    s == den * pow2(k as nat),
                    pow2(e as nat) == pow2(k as nat) * p,
            ;
            assert(c * num == n * s + rest) by (nonlinear_arith)
                requires
                    c == 1,
                    num == n * s + rest,
            ;
        } else {
            lemma_pow2_adds((-k) as nat, e as nat);
            lemma_pow2_pos((-k) as nat);
            assert(c * (den * pow2(e as nat)) == s * p) by (nonlinear_arith)
                requires
                    s == den,
                    c * pow2(e as nat) == p,
            ;
            assert(c * num == n * s + rest) by (nonlinear_arith)
                requires
                    s == den,
                    num * c == n * den + rest,
            ;
        }
    }
    round_cut(negative, n, sticky, d as u32, e, Ghost(num), Ghost(den), Ghost(c), Ghost(s), Ghost(rest))
}

} // verus!
