//! Round-to-nearest, ties-to-even, of a non-negative rational onto the
//! binary32 grid.
//!
//! Magnitudes are measured in units of 2^-149, the smallest positive
//! binary32 value, so every finite binary32 magnitude is a natural number of
//! units. Read as an integer, the bit pattern of a magnitude grows with the
//! value it encodes: patterns below 2^24 count units one by one, and each
//! further block of 2^23 patterns doubles the spacing.

use vstd::prelude::*;
use vstd::arithmetic::div_mod::lemma_fundamental_div_mod;
use vstd::arithmetic::power2::{pow2, lemma_pow2_pos, lemma_pow2_unfold, lemma_pow2_adds, lemma_pow2_strictly_increases, lemma2_to64, lemma2_to64_rest};

verus! {

/// Bit pattern of the magnitude of an infinity.
pub const INFINITY_BITS: u32 = 0x7f80_0000;

/// The quotient `n / d` rounded to the nearest natural number, a tie going
/// to the even neighbour.
pub open spec fn round_half_even(n: nat, d: nat) -> nat
    recommends
        d > 0,
{
    let q = n / d;
    let r = n % d;
    if 2 * r < d || (2 * r == d && q % 2 == 0) {
        q
    } else {
        q + 1
    }
}

/// How many times the spacing of the grid has doubled at `n / d` units:
/// zero below 2^24 units, and otherwise the `k` with
/// `2^(23+k) <= n / d < 2^(24+k)`.
pub open spec fn binade(n: nat, d: nat) -> nat
    decreases n,
{
    if d == 0 || n < 0x100_0000 * d {
        0
    } else {
        1 + binade(n / 2, d)
    }
}

/// Bit pattern of the binary32 magnitude nearest to `n / d` units, ties to
/// the even significand, and infinity once the rounded value leaves the
/// finite range.
pub open spec fn round_magnitude(n: nat, d: nat) -> nat
    recommends
        d > 0,
{
    let k = binade(n, d);
    let bits = k * 0x80_0000 + round_half_even(n, d * pow2(k));
    if bits >= 0x7f80_0000 {
        0x7f80_0000
    } else {
        bits
    }
}

/// `n / d` lies in the stretch of the grid whose spacing is `2^k` units.
pub open spec fn in_binade(n: nat, d: nat, k: nat) -> bool {
    &&& n < pow2(24 + k) * d
    &&& k > 0 ==> pow2(23 + k) * d <= n
}

/// `m` is within one half of `n / d`, and even when exactly one half away.
pub open spec fn is_nearest_even(m: nat, n: nat, d: nat) -> bool {
    let md = m * d;
    &&& 2 * md - d <= 2 * n
    &&& 2 * n <= 2 * md + d
    &&& (2 * n == 2 * md - d || 2 * n == 2 * md + d) ==> m % 2 == 0
}

/// A quotient lies in one binade only.
pub proof fn lemma_binade_unique(n: nat, d: nat, k: nat)
    requires
        d > 0,
        in_binade(n, d, k),
    ensures
        binade(n, d) == k,
    decreases k,
{
    lemma2_to64();
    if k > 0 {
        let lo = pow2((22 + k) as nat) * d;
        let mid = pow2(23 + k) * d;
        lemma_pow2_unfold(23 + k);
        lemma_pow2_unfold(24 + k);
        assert(pow2(23 + k) * d == 2 * lo) by (nonlinear_arith)
            requires
                pow2(23 + k) == 2 * pow2((22 + k) as nat),
                lo == pow2((22 + k) as nat) * d,
        ;
        assert(pow2(24 + k) * d == 2 * mid) by (nonlinear_arith)
            requires
                pow2(24 + k) == 2 * pow2(23 + k),
                mid == pow2(23 + k) * d,
        ;
        if k > 1 {
            lemma_pow2_strictly_increases(24, 23 + k);
        }
        assert(0x100_0000 * d <= mid) by (nonlinear_arith)
            requires
                0x100_0000 <= pow2(23 + k),
                mid == pow2(23 + k) * d,
        ;
        assert(pow2((23 + (k - 1)) as nat) == pow2((22 + k) as nat));
        assert(pow2((24 + (k - 1)) as nat) == pow2(23 + k));
        lemma_binade_unique(n / 2, d, (k - 1) as nat);
    }
}

/// A quotient has one nearest natural number with ties to even.
pub proof fn lemma_nearest_even_unique(m: nat, n: nat, d: nat)
    requires
        d > 0,
        is_nearest_even(m, n, d),
    ensures
        round_half_even(n, d) == m,
{
    let q = n / d;
    let r = n % d;
    assert(n == q * d + r && 0 <= r < d) by (nonlinear_arith)
        requires
            d > 0,
            q == n / d,
            r == n % d,
    ;
    let md = m * d;
    assert(q <= m <= q + 1) by (nonlinear_arith)
        requires
            d > 0,
            n == q * d + r,
            0 <= r < d,
            md == m * d,
            2 * md - d <= 2 * n,
            2 * n <= 2 * md + d,
    ;
    if m == q {
        assert(md == q * d);
    } else {
        assert(md == q * d + d) by (nonlinear_arith)
            requires
                m == q + 1,
                md == m * d,
        ;
    }
}

/// The rounding of `n / d` is fixed by the binade it lies in and by the
/// nearest multiple of that binade's spacing.
pub proof fn lemma_round_magnitude(n: nat, d: nat, k: nat, m: nat)
    requires
        d > 0,
        in_binade(n, d, k),
        is_nearest_even(m, n, d * pow2(k)),
    ensures
        round_magnitude(n, d) == (if k * 0x80_0000 + m >= 0x7f80_0000 {
            0x7f80_0000
        } else {
            k * 0x80_0000 + m
        }),
{
    lemma_binade_unique(n, d, k);
    lemma_pow2_pos(k);
    assert(d * pow2(k) > 0) by (nonlinear_arith)
        requires
            d > 0,
            pow2(k) > 0,
    ;
    lemma_nearest_even_unique(m, n, d * pow2(k));
}

/// Two exact quantities that differ by positive factors have the same sign.
proof fn lemma_same_sign(x: int, y: int, s: int, a: int)
    by (nonlinear_arith)
    requires
        s > 0,
        a > 0,
        s * x == a * y,
    ensures
        (x >= 0) == (y >= 0),
        (x == 0) == (y == 0),
{
}

/// Comparing `u * n * a` with `v * d * b` is comparing `u * (q*d + rem)`
/// with `v * d * p`, once both sides are brought to the common scale `s`.
proof fn lemma_compare_scaled(
    u: int,
    v: int,
    n: int,
    a: int,
    d: int,
    b: int,
    s: int,
    w: int,
    p: int,
) -> (r: (int, int))
    requires
        s > 0,
        a > 0,
        n * s == w,
        b * s == p * a,
    ensures
        r.0 == u * (n * a) - v * (d * b),
        r.1 == u * w - v * (d * p),
        (r.0 >= 0) == (r.1 >= 0),
        (r.0 == 0) == (r.1 == 0),
{
    let na = n * a;
    let db = d * b;
    let dp = d * p;
    let x = u * na - v * db;
    let y = u * w - v * dp;
    assert(s * na == a * w) by (nonlinear_arith)
        requires
            na == n * a,
            n * s == w,
    ;
    assert(s * db == a * dp) by (nonlinear_arith)
        requires
            db == d * b,
            dp == d * p,
            b * s == p * a,
    ;
    assert(s * (u * na) == a * (u * w)) by (nonlinear_arith)
        requires
            s * na == a * w,
    ;
    assert(s * (v * db) == a * (v * dp)) by (nonlinear_arith)
        requires
            s * db == a * dp,
    ;
    assert(s * x == s * (u * na) - s * (v * db)) by (nonlinear_arith)
        requires
            x == u * na - v * db,
    ;
    assert(a * y == a * (u * w) - a * (v * dp)) by (nonlinear_arith)
        requires
            y == u * w - v * dp,
    ;
    lemma_same_sign(x, y, s, a);
    (x, y)
}

/// Whether the discarded part `r2 + rem/d` of a quotient exceeds `half`, or
/// equals it while the kept part `q2` is odd.
pub open spec fn rounds_up(q2: int, r2: int, half: int, rem: int) -> bool {
    r2 > half || (r2 == half && (rem != 0 || q2 % 2 == 1))
}

/// Rounding `(q + rem/d) / p` from the quotient and remainder of `q` by an
/// even `p`.
proof fn lemma_round_quotient(q: nat, rem: nat, d: nat, p: nat, m: nat)
    requires
        d > 0,
        rem < d,
        p >= 2,
        p % 2 == 0,
        m == q / p + (if rounds_up((q / p) as int, (q % p) as int, (p / 2) as int, rem as int) {
            1nat
        } else {
            0nat
        }),
    ensures
        is_nearest_even(m, q * d + rem, d * p),
{
    let q2 = q / p;
    let r2 = q % p;
    let half = p / 2;
    lemma_fundamental_div_mod(q as int, p as int);
    let dp = d * p;
    let dh = d * half;
    let r2d = r2 * d;
    let t = q2 * dp;
    assert(q * d + rem == t + r2d + rem && dp == 2 * dh) by (nonlinear_arith)
        requires
            q == p * q2 + r2,
            p == 2 * half,
            dp == d * p,
            dh == d * half,
            r2d == r2 * d,
            t == q2 * dp,
    ;
    assert(r2d <= dp - d && r2d >= 0) by (nonlinear_arith)
        requires
            0 <= r2 < p,
            d > 0,
            dp == d * p,
            r2d == r2 * d,
    ;
    assert(r2 < half ==> r2d <= dh - d) by (nonlinear_arith)
        requires
            d > 0,
            dh == d * half,
            r2d == r2 * d,
    ;
    assert(r2 > half ==> r2d >= dh + d) by (nonlinear_arith)
        requires
            d > 0,
            dh == d * half,
            r2d == r2 * d,
    ;
    assert(r2 == half ==> r2d == dh) by (nonlinear_arith)
        requires
            dh == d * half,
            r2d == r2 * d,
    ;
    assert(m == q2 ==> m * dp == t);
    assert(m == q2 + 1 ==> m * dp == t + dp) by (nonlinear_arith)
        requires
            t == q2 * dp,
    ;
}

/// Carries a rounding found at the working scale over to the rational
/// `(n * a) / (d * b)`: the working scale multiplies `n` by `s`, divides by
/// `d`, and measures in steps of `p` where `2^k * b * s == p * a`.
proof fn lemma_rounding_at_scale(
    n: nat,
    a: nat,
    d: nat,
    b: nat,
    s: nat,
    q: nat,
    rem: nat,
    p: nat,
    k: nat,
    m: nat,
)
    requires
        d > 0,
        a > 0,
        b > 0,
        s > 0,
        n * s == q * d + rem,
        rem < d,
        pow2(k) * b * s == p * a,
        q < 0x100_0000 * p,
        k > 0 ==> 0x80_0000 * p <= q,
        is_nearest_even(m, q * d + rem, d * p),
    ensures
        in_binade(n * a, d * b, k),
        is_nearest_even(m, n * a, (d * b) * pow2(k)),
{
    lemma2_to64();
    lemma_pow2_pos(k);
    let w = (q * d + rem) as int;
    let bk = (b * pow2(k)) as int;
    assert(bk * s == p * a) by (nonlinear_arith)
        requires
            bk == b * pow2(k),
            pow2(k) * b * s == p * a,
    ;
    assert((d * b) * pow2(k) == d * bk) by (nonlinear_arith)
        requires
            bk == b * pow2(k),
    ;
    assert((2 * m - 1) * (d * bk) == 2 * (m * (d * bk)) - d * bk && (2 * m + 1) * (d * bk) == 2 * (m
        * (d * bk)) + d * bk) by (nonlinear_arith);
    assert((2 * m - 1) * (d * p) == 2 * (m * (d * p)) - d * p && (2 * m + 1) * (d * p) == 2 * (m * (
    d * p)) + d * p) by (nonlinear_arith);
    let lo = lemma_compare_scaled(2, 2 * m - 1, n as int, a as int, d as int, bk, s as int, w, p as int);
    let hi = lemma_compare_scaled(2, 2 * m as int + 1, n as int, a as int, d as int, bk, s as int, w, p as int);
    // Binade: n*a < 2^(24+k) * d*b, and for k > 0, 2^(23+k) * d*b <= n*a.
    lemma_pow2_adds(24, k);
    lemma_pow2_adds(23, k);
    let top = lemma_compare_scaled(1, 0x100_0000, n as int, a as int, d as int, bk, s as int, w, p as int);
    let bot = lemma_compare_scaled(1, 0x80_0000, n as int, a as int, d as int, bk, s as int, w, p as int);
    assert(pow2(24 + k) * (d * b) == 0x100_0000 * (d * bk)) by (nonlinear_arith)
        requires
            pow2(24 + k) == 0x100_0000 * pow2(k),
            bk == b * pow2(k),
    ;
    assert(pow2(23 + k) * (d * b) == 0x80_0000 * (d * bk)) by (nonlinear_arith)
        requires
            pow2(23 + k) == 0x80_0000 * pow2(k),
            bk == b * pow2(k),
    ;
    assert(w < 0x100_0000 * (d * p)) by (nonlinear_arith)
        requires
            w == q * d + rem,
            rem < d,
            q < 0x100_0000 * p,
    ;
    assert(k > 0 ==> w >= 0x80_0000 * (d * p)) by (nonlinear_arith)
        requires
            w == q * d + rem,
            k > 0 ==> 0x80_0000 * p <= q,
            d > 0,
    ;
}

/// The binade that `binade` names is the one the quotient lies in.
pub proof fn lemma_binade_holds(n: nat, d: nat)
    requires
        d > 0,
    ensures
        in_binade(n, d, binade(n, d)),
    decreases n,
{
    lemma2_to64();
    if n >= 0x100_0000 * d {
        let k = binade(n / 2, d);
        lemma_binade_holds(n / 2, d);
        lemma_pow2_unfold(24 + k + 1);
        lemma_pow2_unfold(23 + k + 1);
        let top = pow2(24 + k) * d;
        let low = pow2(23 + k) * d;
        assert(pow2(24 + k + 1) * d == 2 * top) by (nonlinear_arith)
            requires
                pow2(24 + k + 1) == 2 * pow2(24 + k),
                top == pow2(24 + k) * d,
        ;
        assert(pow2(23 + k + 1) * d == 2 * low) by (nonlinear_arith)
            requires
                pow2(23 + k + 1) == 2 * pow2(23 + k),
                low == pow2(23 + k) * d,
        ;
        assert(k == 0 ==> 2 * low == 0x100_0000 * d) by (nonlinear_arith)
            requires
                low == pow2(23 + k) * d,
                k == 0 ==> pow2(23 + k) == 0x80_0000,
        ;
    }
}

/// `round_half_even` gives a nearest natural number, the even one at a tie.
pub proof fn lemma_round_half_even_holds(n: nat, d: nat)
    requires
        d > 0,
    ensures
        is_nearest_even(round_half_even(n, d), n, d),
{
    let q = n / d;
    let r = n % d;
    lemma_fundamental_div_mod(n as int, d as int);
    assert(d * q == q * d && (q + 1) * d == q * d + d) by (nonlinear_arith);
}

/// The rounding of a quotient given at a scale of the caller's choice:
/// where `(n * 2^t) / (d * 2^shift)` lies in `[2^23, 2^24)`, or below 2^24
/// with `k == 0`, and `m` is nearest to it, the quotient
/// `(n * 2^up) / (d * 2^down)`, which is `2^k` times as large, rounds to
/// exponent `k` and significand `m`.
pub proof fn lemma_rounding_value(
    n: nat,
    d: nat,
    up: nat,
    down: nat,
    t: nat,
    shift: nat,
    k: nat,
    m: nat,
)
    requires
        d > 0,
        k + down + t == shift + up,
        n * pow2(t) < 0x100_0000 * (d * pow2(shift)),
        k > 0 ==> 0x80_0000 * (d * pow2(shift)) <= n * pow2(t),
        is_nearest_even(m, n * pow2(t), d * pow2(shift)),
    ensures
        round_magnitude(n * pow2(up), d * pow2(down)) == (if k * 0x80_0000 + m >= 0x7f80_0000 {
            0x7f80_0000
        } else {
            k * 0x80_0000 + m
        }),
{
    let a = pow2(up);
    let b = pow2(down);
    let s = pow2(t);
    let p = pow2(shift);
    lemma_pow2_pos(up);
    lemma_pow2_pos(down);
    lemma_pow2_pos(t);
    lemma_pow2_pos(shift);
    let w = n * s;
    let q = w / d;
    let rem = w % d;
    lemma_fundamental_div_mod(w as int, d as int);
    assert(w == q * d + rem) by (nonlinear_arith)
        requires
            w == d * q + rem,
    ;
    lemma_pow2_adds(k, down);
    lemma_pow2_adds(k + down, t);
    lemma_pow2_adds(shift, up);
    assert(q < 0x100_0000 * p) by (nonlinear_arith)
        requires
            w == q * d + rem,
            rem >= 0,
            d > 0,
            w < 0x100_0000 * (d * p),
    ;
    assert(k > 0 ==> 0x80_0000 * p <= q) by (nonlinear_arith)
        requires
            w == q * d + rem,
            rem < d,
            d > 0,
            k > 0 ==> 0x80_0000 * (d * p) <= w,
    ;
    lemma_rounding_at_scale(n, a, d, b, s, q, rem, p, k, m);
    assert(d * b > 0) by (nonlinear_arith)
        requires
            d > 0,
            b > 0,
    ;
    lemma_round_magnitude(n * a, d * b, k, m);
}

/// Rounding does not fall below a grid value that the quotient reaches:
/// where `n / d` is at least `m * 2^k` units, its rounding is at least the
/// bit pattern of that value.
pub proof fn lemma_round_at_least(n: nat, d: nat, k: nat, m: nat)
    requires
        d > 0,
        m <= 0x100_0000,
        k > 0 ==> m >= 0x80_0000,
        n >= m * (d * pow2(k)),
    ensures
        round_magnitude(n, d) >= (if k * 0x80_0000 + m >= 0x7f80_0000 {
            0x7f80_0000
        } else {
            k * 0x80_0000 + m
        }),
{
    lemma2_to64();
    let kk = binade(n, d);
    lemma_binade_holds(n, d);
    lemma_pow2_pos(kk);
    lemma_pow2_pos(k);
    let dd = d * pow2(kk);
    let dk = d * pow2(k);
    assert(dd > 0 && dk > 0) by (nonlinear_arith)
        requires
            dd == d * pow2(kk),
            dk == d * pow2(k),
            d > 0,
            pow2(kk) > 0,
            pow2(k) > 0,
    ;
    let mm = round_half_even(n, dd);
    lemma_round_half_even_holds(n, dd);
    let md = mm * dd;
    lemma_pow2_adds(23, kk);
    lemma_pow2_adds(24, kk);
    assert(pow2(23 + kk) * d == 0x80_0000 * dd && pow2(24 + kk) * d == 0x100_0000 * dd)
        by (nonlinear_arith)
        requires
            dd == d * pow2(kk),
            pow2(23 + kk) == 0x80_0000 * pow2(kk),
            pow2(24 + kk) == 0x100_0000 * pow2(kk),
    ;
    if kk > k {
        assert(mm >= 0x80_0000) by (nonlinear_arith)
            requires
                md == mm * dd,
                2 * n <= 2 * md + dd,
                0x80_0000 * dd <= n,
                dd > 0,
        ;
    } else if kk == k {
        assert(mm >= m) by (nonlinear_arith)
            requires
                md == mm * dd,
                2 * n <= 2 * md + dd,
                n >= m * dd,
                dd > 0,
        ;
    } else {
        lemma_pow2_unfold(kk + 1);
        if kk + 1 < k {
            lemma_pow2_strictly_increases(kk + 1, k);
        }
        assert(false) by (nonlinear_arith)
            requires
                n >= m * dk,
                m >= 0x80_0000,
                dk == d * pow2(k),
                dd == d * pow2(kk),
                pow2(k) >= 2 * pow2(kk),
                n < 0x100_0000 * dd,
                d > 0,
        ;
    }
}

/// Rounding does not rise above a grid value that bounds the quotient:
/// where `n / d` is at most `m * 2^k` units, its rounding is at most the bit
/// pattern of that value.
pub proof fn lemma_round_at_most(n: nat, d: nat, k: nat, m: nat)
    requires
        d > 0,
        m < 0x100_0000,
        k > 0 ==> m >= 0x80_0000,
        n <= m * (d * pow2(k)),
    ensures
        round_magnitude(n, d) <= k * 0x80_0000 + m,
{
    lemma2_to64();
    let kk = binade(n, d);
    lemma_binade_holds(n, d);
    lemma_pow2_pos(kk);
    lemma_pow2_pos(k);
    let dd = d * pow2(kk);
    let dk = d * pow2(k);
    assert(dd > 0 && dk > 0) by (nonlinear_arith)
        requires
            dd == d * pow2(kk),
            dk == d * pow2(k),
            d > 0,
            pow2(kk) > 0,
            pow2(k) > 0,
    ;
    let mm = round_half_even(n, dd);
    lemma_round_half_even_holds(n, dd);
    let md = mm * dd;
    lemma_pow2_adds(23, kk);
    lemma_pow2_adds(24, kk);
    assert(pow2(23 + kk) * d == 0x80_0000 * dd && pow2(24 + kk) * d == 0x100_0000 * dd)
        by (nonlinear_arith)
        requires
            dd == d * pow2(kk),
            pow2(23 + kk) == 0x80_0000 * pow2(kk),
            pow2(24 + kk) == 0x100_0000 * pow2(kk),
    ;
    if kk < k {
        assert(mm <= 0x100_0000) by (nonlinear_arith)
            requires
                md == mm * dd,
                2 * md - dd <= 2 * n,
                n < 0x100_0000 * dd,
                dd > 0,
        ;
    } else if kk == k {
        assert(mm <= m) by (nonlinear_arith)
            requires
                md == mm * dd,
                2 * md - dd <= 2 * n,
                n <= m * dd,
                dd > 0,
        ;
    } else {
        lemma_pow2_unfold(k + 1);
        if k + 1 < kk {
            lemma_pow2_strictly_increases(k + 1, kk);
        }
        assert(false) by (nonlinear_arith)
            requires
                n <= m * dk,
                m < 0x100_0000,
                dk == d * pow2(k),
                dd == d * pow2(kk),
                pow2(kk) >= 2 * pow2(k),
                0x80_0000 * dd <= n,
                d > 0,
                pow2(k) > 0,
        ;
    }
}

/// Zero rounds to zero.
pub proof fn lemma_round_zero(d: nat)
    requires
        d > 0,
    ensures
        round_magnitude(0, d) == 0,
{
    lemma2_to64();
    assert(pow2(24) * d > 0) by (nonlinear_arith)
        requires
            d > 0,
            pow2(24) > 0,
    ;
    assert(d * pow2(0) == d) by (nonlinear_arith)
        requires
            pow2(0) == 1,
    ;
    lemma_round_magnitude(0, d, 0, 0);
}

/// `2^exponent` as a machine integer.
pub(crate) fn power_of_two(exponent: u32) -> (p: u128)
    requires
        exponent <= 110,
    ensures
        p == pow2(exponent as nat),
{
    let mut p: u128 = 1;
    let mut i: u32 = 0;
    proof {
        lemma2_to64();
        lemma2_to64_rest();
        lemma_pow2_adds(55, 55);
    }
    while i < exponent
        invariant
            i <= exponent <= 110,
            p == pow2(i as nat),
            pow2(110) == 0x4000_0000_0000_0000_0000_0000_0000,
        decreases exponent - i,
    {
        proof {
            lemma_pow2_strictly_increases(i as nat, 110);
            lemma_pow2_unfold((i + 1) as nat);
        }
        p = p * 2;
        i = i + 1;
    }
    p
}

/// Number of binary digits of `q`.
fn bit_length(q: u128) -> (len: u32)
    requires
        q < 0x40_0000_0000_0000_0000_0000_0000,
    ensures
        len <= 102,
        q < pow2(len as nat),
        len > 0 ==> pow2((len - 1) as nat) <= q,
{
    let mut len: u32 = 0;
    let mut p: u128 = 1;
    proof {
        lemma2_to64();
        lemma2_to64_rest();
        lemma_pow2_adds(51, 51);
    }
    while p <= q
        invariant
            len <= 102,
            p == pow2(len as nat),
            len > 0 ==> pow2((len - 1) as nat) <= q,
            q < 0x40_0000_0000_0000_0000_0000_0000,
            pow2(102) == 0x40_0000_0000_0000_0000_0000_0000,
        decreases 102 - len,
    {
        proof {
            lemma_pow2_unfold((len + 1) as nat);
        }
        p = p * 2;
        len = len + 1;
    }
    len
}

/// Rounds `(n * 2^up) / (d * 2^down)` units to the nearest binary32
/// magnitude and returns its bit pattern.
pub(crate) fn round_ratio(n: u64, d: u64, up: u32, down: u32) -> (r: u32)
    requires
        n < 0x10_0000_0000_0000,
        0 < d < 0x100_0000,
        up <= 1024,
        down <= 1024,
    ensures
        r == round_magnitude((n as nat) * pow2(up as nat), (d as nat) * pow2(down as nat)),
{
    let ghost a = pow2(up as nat);
    let ghost b = pow2(down as nat);
    let ghost nn = n as nat;
    let ghost dd = d as nat;
    proof {
        lemma2_to64();
        lemma2_to64_rest();
        lemma_pow2_pos(up as nat);
        lemma_pow2_pos(down as nat);
        assert(dd * b > 0) by (nonlinear_arith)
            requires
                dd > 0,
                b > 0,
        ;
    }
    if n == 0 {
        proof {
            assert(nn * a == 0) by (nonlinear_arith)
                requires
                    nn == 0,
            ;
            assert(pow2(24) * (dd * b) > 0) by (nonlinear_arith)
                requires
                    dd * b > 0,
                    pow2(24) > 0,
            ;
            assert((dd * b) * pow2(0) == dd * b) by (nonlinear_arith)
                requires
                    pow2(0) == 1,
            ;
            lemma_round_magnitude(0, dd * b, 0, 0);
        }
        return 0;
    }
    let scaled: u128 = (n as u128) * 0x4_0000_0000_0000;
    let q: u128 = scaled / (d as u128);
    let rem: u128 = scaled % (d as u128);
    proof {
        lemma_fundamental_div_mod(scaled as int, d as int);
        assert(q >= 0x400_0000) by (nonlinear_arith)
            requires
                scaled == d * q + rem,
                rem < d,
                d < 0x100_0000,
                scaled >= 0x4_0000_0000_0000,
        ;
        assert(q <= scaled) by (nonlinear_arith)
            requires
                scaled == d * q + rem,
                d >= 1,
                q >= 0,
                rem >= 0,
        ;
    }
    let len: u32 = bit_length(q);
    proof {
        if len <= 26 {
            if len < 26 {
                lemma_pow2_strictly_increases(len as nat, 26);
            }
            assert(false);
        }
    }
    let base: i64 = 50 + (down as i64) - (up as i64);
    let norm: i64 = (len as i64) - 24;
    let shift: i64 = if base >= norm { base } else { norm };
    let k: i64 = shift - base;
    if shift > 110 {
        proof {
            // The value is below half a unit.
            let gap = (down - up - 61) as nat;
            lemma_pow2_adds(up as nat, 61);
            lemma_pow2_adds((up + 61) as nat, gap);
            lemma_pow2_adds(30, 31);
            lemma_pow2_pos(gap);
            assert(2 * (nn * a) < dd * b) by (nonlinear_arith)
                requires
                    nn < 0x10_0000_0000_0000,
                    dd >= 1,
                    a > 0,
                    b == a * 0x2000_0000_0000_0000 * pow2(gap),
                    pow2(gap) >= 1,
            ;
            assert(pow2(24) * (dd * b) > nn * a) by (nonlinear_arith)
                requires
                    2 * (nn * a) < dd * b,
                    pow2(24) == 0x100_0000,
            ;
            assert((dd * b) * pow2(0) == dd * b) by (nonlinear_arith)
                requires
                    pow2(0) == 1,
            ;
            lemma_round_magnitude(nn * a, dd * b, 0, 0);
        }
        return 0;
    }
    let p: u128 = power_of_two(shift as u32);
    proof {
        lemma_pow2_pos(shift as nat);
    }
    let q2: u128 = q / p;
    let r2: u128 = q % p;
    let half: u128 = p / 2;
    let up_one: bool = r2 > half || (r2 == half && (rem != 0 || q2 % 2 == 1));
    proof {
        lemma_pow2_unfold(shift as nat);
        lemma_pow2_pos((shift - 1) as nat);
        // q < 2^24 * p, and 2^23 * p <= q in a scaled binade.
        lemma_pow2_adds(24, shift as nat);
        if (len as int) < 24 + shift {
            lemma_pow2_strictly_increases(len as nat, (24 + shift) as nat);
        }
        if k > 0 {
            lemma_pow2_adds(23, shift as nat);
            assert(23 + shift == len - 1);
        }
        lemma_fundamental_div_mod(q as int, p as int);
        assert(q2 <= 0xff_ffff) by (nonlinear_arith)
            requires
                q == p * q2 + r2,
                r2 >= 0,
                q < 0x100_0000 * p,
                p > 0,
        ;
    }
    let m: u128 = if up_one { q2 + 1 } else { q2 };
    let bits: u128 = (k as u128) * 0x80_0000 + m;
    proof {
        lemma_round_quotient(q as nat, rem as nat, d as nat, p as nat, m as nat);
        // 2^k * 2^down * 2^50 == 2^shift * 2^up
        lemma_pow2_adds(k as nat, down as nat);
        lemma_pow2_adds((k + down) as nat, 50);
        lemma_pow2_adds(shift as nat, up as nat);
        assert((k + down) + 50 == shift + up);
        let s = 0x4_0000_0000_0000nat;
        assert(n * s == q * d + rem) by (nonlinear_arith)
            requires
                scaled == n * 0x4_0000_0000_0000,
                scaled == d * q + rem,
                s == 0x4_0000_0000_0000,
        ;
        lemma_rounding_at_scale(n as nat, a, d as nat, b, s, q as nat, rem as nat, p as nat, k as nat, m as nat);
        lemma_round_magnitude(nn * a, dd * b, k as nat, m as nat);
    }
    if bits >= 0x7f80_0000 {
        0x7f80_0000
    } else {
        bits as u32
    }
}

} // verus!
