use crate::binary32;
use crate::binary32::Binary32;
use crate::rounding;
use crate::rounding::INFINITY_BITS;
use vstd::arithmetic::power2::*;
use vstd::prelude::*;

verus! {

/// The real number that a finite number is.
pub open spec fn real_of(a: Binary32) -> real {
    (a.value() as real) / (binary32::one_in_units() as real)
}

/// A finite number.
pub open spec fn is_finite(a: Binary32) -> bool {
    a.magnitude() < INFINITY_BITS
}

/// The distance from zero.
pub open spec fn size(x: real) -> real {
    if x < 0 as real {
        -x
    } else {
        x
    }
}

/// The unit roundoff, `2^-24`.
pub open spec fn roundoff() -> real {
    (1 as real) / (0x100_0000 as real)
}

/// Half of the smallest positive number, `2^-150`.
pub open spec fn underflow() -> real {
    (1 as real) / ((2 * binary32::one_in_units()) as real)
}

/// `2^127`, below which nothing overflows.
pub open spec fn large() -> real {
    pow2(127) as real
}

/// What rounding a ratio costs, in units and times the denominator: half a place.
proof fn lemma_nearest(negative: bool, p: nat, q: nat)
    requires
        q > 0,
    ensures
        binary32::with_sign(negative, rounding::nearest_ratio(p, q)).negative() == negative,
        !binary32::with_sign(negative, rounding::nearest_ratio(p, q)).is_nan(),
        p <= q * pow2(276) ==> is_finite(binary32::with_sign(negative, rounding::nearest_ratio(p, q))),
        is_finite(binary32::with_sign(negative, rounding::nearest_ratio(p, q))) ==> ({
            let s = binary32::with_sign(negative, rounding::nearest_ratio(p, q)).size();
            &&& 0x100_0000 * (s * q - p) <= p + 0x80_0000 * q
            &&& 0x100_0000 * (p - s * q) <= p + 0x80_0000 * q
            &&& q == 1 ==> 0x100_0000 * (s - p) <= p && 0x100_0000 * (p - s) <= p
        }),
{
    lemma2_to64();
    let (k, m) = rounding::nearest_is_half_a_place_off(p, q);
    let bits = rounding::packed(k, m);
    let a = pow2(k);
    let d = q * a;
    lemma_pow2_pos(k);
    lemma_pow2_adds(k, 23);
    binary32::lemma_with_sign(negative, bits);
    let (md, low) = (m * d, q * pow2(k + 23));
    assert(low == 0x80_0000 * d) by (nonlinear_arith)
        requires
            low == q * (a * 0x80_0000),
            d == q * a,
    ;
    assert(k == 0 ==> d == q) by (nonlinear_arith)
        requires
            d == q * a,
            k == 0 ==> a == 1,
    ;
    if p <= q * pow2(276) {
        assert(k <= 253) by {
            if k > 253 {
                lemma_pow2_strictly_increases(276, k + 23);
                let (x, y) = (pow2(276), pow2(k + 23));
                assert(q * x < q * y) by (nonlinear_arith)
                    requires
                        x < y,
                        q > 0,
                ;
            }
        }
        if k == 253 {
            assert(m <= 0x80_0000) by (nonlinear_arith)
                requires
                    2 * (m * d) <= 2 * (0x80_0000 * d) + d,
                    d > 0 || q > 0 && a > 0 && d == q * a,
            ;
        }
        assert(bits < INFINITY_BITS);
    }
    if bits < INFINITY_BITS {
        binary32::lemma_packed_size(negative, k, m);
        let s = m * a;
        assert(s * q == md) by (nonlinear_arith)
            requires
                s == m * a,
                md == m * d,
                d == q * a,
        ;
        if q == 1 && k == 0 {
            assert(md == m) by (nonlinear_arith)
                requires
                    md == m * d,
                    d == 1,
            ;
            assert(s == md) by (nonlinear_arith)
                requires
                    s * q == md,
                    q == 1,
            ;
        }
        assert(q == 1 ==> s * q == s) by (nonlinear_arith);
    }
}

proof fn lemma_units()
    ensures
        binary32::one_in_units() as real > 0 as real,
        underflow() > 0 as real,
        underflow() * (binary32::one_in_units() as real) == (1 as real) / (2 as real),
        large() * (binary32::one_in_units() as real) == pow2(276) as real,
{
    lemma_pow2_pos(149);
    lemma_pow2_adds(127, 149);
    let u = binary32::one_in_units() as real;
    assert(((1 as real) / (2 as real * u)) * u == (1 as real) / (2 as real) && (1 as real) / (2 as real * u)
        > 0 as real) by (nonlinear_arith)
        requires
            u > 0 as real,
    ;
    let (x, y) = (pow2(127), binary32::one_in_units());
    assert((x * y) as real == (x as real) * (y as real)) by (nonlinear_arith);
}

/// A real number is the size of a finite number, by its sign.
proof fn lemma_real_size(a: Binary32)
    ensures
        size(real_of(a)) == (a.size() as real) / (binary32::one_in_units() as real),
        real_of(a) == (if a.negative() {
            -size(real_of(a))
        } else {
            size(real_of(a))
        }),
        size(real_of(a)) * (binary32::one_in_units() as real) == a.size() as real,
{
    lemma_units();
    let (u, n) = (binary32::one_in_units() as real, a.size() as real);
    let v = a.value() as real;
    assert(n / u >= 0 as real && (-n) / u == -(n / u) && (n / u) * u == n) by (nonlinear_arith)
        requires
            u > 0 as real,
            n >= 0 as real,
    ;
}

/// A product is off by at most one unit roundoff, or by half of the smallest number.
pub proof fn products_are_accurate(a: Binary32, b: Binary32)
    requires
        is_finite(a),
        is_finite(b),
    ensures
        size(real_of(a) * real_of(b)) <= large() ==> is_finite(binary32::product(a, b)),
        is_finite(binary32::product(a, b)) ==> size(
            real_of(binary32::product(a, b)) - real_of(a) * real_of(b),
        ) <= size(real_of(a) * real_of(b)) * roundoff() + underflow(),
{
    reveal(binary32::product);
    let r = binary32::product(a, b);
    let negative = a.negative() != b.negative();
    let unit = binary32::one_in_units();
    let p = a.size() * b.size();
    lemma_pow2_pos(149);
    lemma_units();
    lemma_nearest(negative, p, unit);
    lemma_real_size(a);
    lemma_real_size(b);
    lemma_real_size(r);
    let u = unit as real;
    let (x, y, z) = (size(real_of(a)), size(real_of(b)), size(real_of(r)));
    let (an, bn, rn) = (a.size() as int, b.size() as int, r.size() as int);
    assert((an * bn) as real == (an as real) * (bn as real)) by (nonlinear_arith);
    assert((rn * unit) as real == (rn as real) * (unit as real)) by (nonlinear_arith);
    let xy = x * y;
    assert(xy >= 0 as real && p as real == xy * (u * u)) by (nonlinear_arith)
        requires
            p as real == (an as real) * (bn as real),
            an as real == x * u,
            bn as real == y * u,
            xy == x * y,
            x >= 0 as real,
            y >= 0 as real,
    ;
    let (ra, rb) = (real_of(a), real_of(b));
    assert(ra * rb == if negative { -xy } else { xy }) by (nonlinear_arith)
        requires
            ra == x || ra == -x,
            rb == y || rb == -y,
            xy == x * y,
            negative == (a.negative() != b.negative()),
            ra == if a.negative() { -x } else { x },
            rb == if b.negative() { -y } else { y },
    ;
    if xy <= large() {
        let (pw, big) = (pow2(276), large());
        assert((unit * pw) as real == (unit as real) * (pw as real)) by (nonlinear_arith);
        assert(p as real <= u * (pw as real)) by (nonlinear_arith)
            requires
                p as real == xy * (u * u),
                xy <= big,
                big * u == pw as real,
                u > 0 as real,
        ;
    }
    if is_finite(r) {
        let e = underflow();
        let q = (rn * unit) as real;
        let pr = p as real;
        assert(0x100_0000 as real * (q - pr) <= pr + 0x80_0000 as real * u);
        assert(0x100_0000 as real * (pr - q) <= pr + 0x80_0000 as real * u);
        assert(q == z * (u * u)) by (nonlinear_arith)
            requires
                q == (rn as real) * u,
                rn as real == z * u,
        ;
        let v = u * u;
        assert(v > 0 as real && u == 2 as real * (e * v)) by (nonlinear_arith)
            requires
                e * u == (1 as real) / (2 as real),
                v == u * u,
                u > 0 as real,
        ;
        assert((z - xy) * v == z * v - xy * v && (xy - z) * v == xy * v - z * v) by (nonlinear_arith);
        lemma_divide(z - xy, xy, e, v);
        lemma_divide(xy - z, xy, e, v);
    }
}

proof fn lemma_divide(gap: real, exact: real, e: real, v: real)
    requires
        v > 0 as real,
        0x100_0000 as real * (gap * v) <= exact * v + 0x100_0000 as real * (e * v),
    ensures
        gap <= exact * roundoff() + e,
{
    assert(0x100_0000 as real * gap <= exact + 0x100_0000 as real * e) by (nonlinear_arith)
        requires
            v > 0 as real,
            0x100_0000 as real * (gap * v) <= exact * v + 0x100_0000 as real * (e * v),
    ;
    let c = roundoff();
    assert(0x100_0000 as real * (exact * c) == exact) by (nonlinear_arith)
        requires
            0x100_0000 as real * c == 1 as real,
    ;
}

/// The value, in units, of a finite number.
proof fn lemma_real_value(a: Binary32)
    ensures
        real_of(a) * (binary32::one_in_units() as real) == a.value() as real,
{
    lemma_units();
    let (u, v) = (binary32::one_in_units() as real, a.value() as real);
    assert((v / u) * u == v) by (nonlinear_arith)
        requires
            u > 0 as real,
    ;
}

/// What stands in units with the error of a rounding stands in real numbers too.
proof fn lemma_rounded_units(r: Binary32, v: int, exact: real)
    requires
        is_finite(r),
        v != 0 ==> r.negative() == (v < 0),
        exact * (binary32::one_in_units() as real) == v as real,
        0x100_0000 * (r.size() - binary32::absolute(v)) <= binary32::absolute(v),
        0x100_0000 * (binary32::absolute(v) - r.size()) <= binary32::absolute(v),
    ensures
        size(real_of(r) - exact) <= size(exact) * roundoff(),
{
    lemma_units();
    lemma_real_value(r);
    let u = binary32::one_in_units() as real;
    let x = real_of(r);
    let (d, e) = (x - exact, size(exact));
    let rv = r.value() as real;
    assert(d * u == rv - v as real) by (nonlinear_arith)
        requires
            d == x - exact,
            x * u == rv,
            exact * u == v as real,
    ;
    assert(e * u == binary32::absolute(v) as real) by (nonlinear_arith)
        requires
            exact * u == v as real,
            u > 0 as real,
            e == if exact < 0 as real { -exact } else { exact },
            binary32::absolute(v) as real == if v < 0 { -(v as real) } else { v as real },
    ;
    let nothing = 0 as real;
    assert((-d) * u == -(d * u) && nothing * u == nothing) by (nonlinear_arith)
        requires
            nothing == 0 as real,
    ;
    lemma_divide(d, e, nothing, u);
    lemma_divide(-d, e, nothing, u);
}

/// A sum is off by at most one unit roundoff.
pub proof fn sums_are_accurate(a: Binary32, b: Binary32)
    requires
        is_finite(a),
        is_finite(b),
    ensures
        size(real_of(a) + real_of(b)) <= large() ==> is_finite(binary32::sum(a, b)),
        is_finite(binary32::sum(a, b)) ==> size(real_of(binary32::sum(a, b)) - (real_of(a) + real_of(b))) <= size(
            real_of(a) + real_of(b),
        ) * roundoff(),
{
    reveal(binary32::sum);
    lemma_units();
    lemma_real_value(a);
    lemma_real_value(b);
    let r = binary32::sum(a, b);
    let v = a.value() + b.value();
    let u = binary32::one_in_units() as real;
    let (x, y) = (real_of(a), real_of(b));
    let exact = x + y;
    assert(exact * u == v as real) by (nonlinear_arith)
        requires
            exact == x + y,
            x * u + y * u == v as real,
    ;
    if v != 0 {
        let p = binary32::absolute(v);
        lemma_nearest(v < 0, p, 1);
        if size(exact) <= large() {
            let (big, e) = (large(), size(exact));
            assert(p as real <= pow2(276) as real) by (nonlinear_arith)
                requires
                    e <= big,
                    big * u == pow2(276) as real,
                    exact * u == v as real,
                    u > 0 as real,
                    e == if exact < 0 as real { -exact } else { exact },
                    p as real == if v < 0 { -(v as real) } else { v as real },
            ;
            assert(1 * pow2(276) == pow2(276));
        }
    } else {
        binary32::lemma_with_sign(a.negative() && b.negative(), 0);
        binary32::lemma_parts(r);
    }
    if is_finite(r) {
        lemma_rounded_units(r, v, exact);
    }
}

/// Changing the sign gives the opposite number.
pub proof fn negations_are_exact(a: Binary32)
    requires
        is_finite(a),
    ensures
        is_finite(binary32::negation(a)),
        real_of(binary32::negation(a)) == -real_of(a),
{
    reveal(binary32::negation);
    lemma_units();
    let r = binary32::negation(a);
    binary32::lemma_with_sign(!a.negative(), a.magnitude());
    assert(r.size() == a.size());
    lemma_real_size(a);
    lemma_real_size(r);
}

/// A difference is off by at most one unit roundoff.
pub proof fn differences_are_accurate(a: Binary32, b: Binary32)
    requires
        is_finite(a),
        is_finite(b),
    ensures
        size(real_of(a) - real_of(b)) <= large() ==> is_finite(binary32::difference(a, b)),
        is_finite(binary32::difference(a, b)) ==> size(
            real_of(binary32::difference(a, b)) - (real_of(a) - real_of(b)),
        ) <= size(real_of(a) - real_of(b)) * roundoff(),
{
    reveal(binary32::difference);
    negations_are_exact(b);
    sums_are_accurate(a, binary32::negation(b));
}

/// A quotient is off by at most one unit roundoff, or by half of the smallest number.
pub proof fn quotients_are_accurate(a: Binary32, b: Binary32)
    requires
        is_finite(a),
        is_finite(b),
        !b.is_zero(),
    ensures
        size(real_of(a) / real_of(b)) <= large() ==> is_finite(binary32::quotient(a, b)),
        is_finite(binary32::quotient(a, b)) ==> size(
            real_of(binary32::quotient(a, b)) - real_of(a) / real_of(b),
        ) <= size(real_of(a) / real_of(b)) * roundoff() + underflow(),
{
    reveal(binary32::quotient);
    let r = binary32::quotient(a, b);
    let negative = a.negative() != b.negative();
    let unit = binary32::one_in_units();
    let p = a.size() * unit;
    let q = b.size();
    binary32::lemma_parts(b);
    lemma_units();
    lemma_nearest(negative, p, q);
    lemma_real_size(a);
    lemma_real_size(b);
    lemma_real_size(r);
    let u = unit as real;
    let (x, y, z) = (size(real_of(a)), size(real_of(b)), size(real_of(r)));
    let (an, rn) = (a.size() as int, r.size() as int);
    assert((an * unit) as real == (an as real) * (unit as real)) by (nonlinear_arith);
    assert((rn * q) as real == (rn as real) * (q as real)) by (nonlinear_arith);
    assert(y > 0 as real) by (nonlinear_arith)
        requires
            y * u == q as real,
            q > 0,
            u > 0 as real,
    ;
    let xy = x / y;
    assert(xy >= 0 as real && xy * y == x) by (nonlinear_arith)
        requires
            xy == x / y,
            x >= 0 as real,
            y > 0 as real,
    ;
    let (ra, rb) = (real_of(a), real_of(b));
    assert((-x) / y == -xy && x / (-y) == -xy && (-x) / (-y) == xy) by (nonlinear_arith)
        requires
            xy == x / y,
            y > 0 as real,
    ;
    assert(ra / rb == if negative { -xy } else { xy });
    let pr = p as real;
    let v = y * (u * u);
    assert(v > 0 as real && pr == xy * v) by (nonlinear_arith)
        requires
            pr == (an as real) * u,
            an as real == x * u,
            x == xy * y,
            v == y * (u * u),
            y > 0 as real,
            u > 0 as real,
    ;
    if xy <= large() {
        let (pw, big) = (pow2(276), large());
        assert((q * pw) as real == (q as real) * (pw as real)) by (nonlinear_arith);
        assert(pr <= (q as real) * (pw as real)) by (nonlinear_arith)
            requires
                pr == xy * v,
                v == y * (u * u),
                v > 0 as real,
                y * u == q as real,
                xy <= big,
                big * u == pw as real,
        ;
    }
    if is_finite(r) {
        let e = underflow();
        let rq = (rn * q) as real;
        assert(0x100_0000 as real * (rq - pr) <= pr + 0x80_0000 as real * (q as real));
        assert(0x100_0000 as real * (pr - rq) <= pr + 0x80_0000 as real * (q as real));
        assert(rq == z * v) by (nonlinear_arith)
            requires
                rq == (rn as real) * (q as real),
                rn as real == z * u,
                q as real == y * u,
                v == y * (u * u),
        ;
        assert(q as real == 2 as real * (e * v)) by (nonlinear_arith)
            requires
                e * u == (1 as real) / (2 as real),
                q as real == y * u,
                v == y * (u * u),
        ;
        assert((z - xy) * v == z * v - xy * v && (xy - z) * v == xy * v - z * v) by (nonlinear_arith);
        lemma_divide(z - xy, xy, e, v);
        lemma_divide(xy - z, xy, e, v);
    }
}

/// An integer of at most 24 binary digits is itself; a longer one is off by at most one unit
/// roundoff.
pub proof fn integers_are_accurate(v: int)
    requires
        -0x8000_0000 <= v <= 0x8000_0000,
    ensures
        is_finite(binary32::of_int(v)),
        size(real_of(binary32::of_int(v)) - v as real) <= size(v as real) * roundoff(),
        -0x100_0000 <= v <= 0x100_0000 ==> real_of(binary32::of_int(v)) == v as real,
{
    let r = binary32::of_int(v);
    let whole = binary32::integers_are_whole(v);
    let unit = binary32::one_in_units();
    lemma_units();
    let u = unit as real;
    let n = v * unit;
    assert((v * unit) as real == (v as real) * (unit as real)) by (nonlinear_arith);
    let p = binary32::absolute(v) * unit;
    assert(p == binary32::absolute(n) && (n < 0 <==> v < 0)) by (nonlinear_arith)
        requires
            p == binary32::absolute(v) * unit,
            n == v * unit,
            unit > 0 || u > 0 as real && u == unit as real,
            binary32::absolute(v) == if v < 0 { -v } else { v },
            binary32::absolute(n) == if n < 0 { -n } else { n },
    ;
    binary32::integers_keep_their_sign(v);
    assert(r == binary32::with_sign(v < 0, rounding::nearest_ratio(p, 1))) by {
        reveal(binary32::of_int);
    }
    lemma_nearest(v < 0, p, 1);
    lemma_rounded_units(r, n, v as real);
    if -0x100_0000 <= v <= 0x100_0000 {
        binary32::short_integers_are_exact(v);
        lemma_real_value(r);
        let x = real_of(r);
        assert(x == v as real) by (nonlinear_arith)
            requires
                x * u == (v as real) * u,
                u > 0 as real,
        ;
    }
}

/// Numbers compare as the real numbers that they are.
pub proof fn comparisons_are_exact(a: Binary32, b: Binary32)
    requires
        is_finite(a),
        is_finite(b),
    ensures
        binary32::less(a, b) <==> real_of(a) < real_of(b),
{
    reveal(binary32::less);
    lemma_units();
    lemma_real_value(a);
    lemma_real_value(b);
    let u = binary32::one_in_units() as real;
    let (x, y) = (real_of(a), real_of(b));
    assert(x < y <==> x * u < y * u) by (nonlinear_arith)
        requires
            u > 0 as real,
    ;
}

/// Cutting to an integer goes toward zero, and stops at the ends of `i32`.
pub proof fn truncations_go_toward_zero(a: Binary32)
    requires
        is_finite(a),
    ensures
        i32::MIN <= binary32::truncated(a) <= i32::MAX,
        0 as real <= real_of(a) < 0x8000_0000 as real ==> binary32::truncated(a) as real <= real_of(a) < (
        binary32::truncated(a) + 1) as real,
        -(0x8000_0000 as real) < real_of(a) <= 0 as real ==> real_of(a) > (binary32::truncated(a) - 1) as real && real_of(a)
            <= binary32::truncated(a) as real,
        real_of(a) >= 0x8000_0000 as real ==> binary32::truncated(a) == i32::MAX,
        real_of(a) <= -(0x8000_0000 as real) ==> binary32::truncated(a) == i32::MIN,
{
    reveal(binary32::truncated);
    lemma_units();
    lemma_real_size(a);
    let unit = binary32::one_in_units() as int;
    let n = a.size() as int;
    let (w, rest) = (n / unit, n % unit);
    lemma_pow2_pos(149);
    vstd::arithmetic::div_mod::lemma_fundamental_div_mod(n, unit);
    let (u, x) = (unit as real, size(real_of(a)));
    assert((unit * w) as real == (unit as real) * (w as real)) by (nonlinear_arith);
    assert(w >= 0) by (nonlinear_arith)
        requires
            n == unit * w + rest,
            n >= 0,
            0 <= rest < unit,
    ;
    assert(w as real <= x && x < w as real + 1 as real) by (nonlinear_arith)
        requires
            x * u == n as real,
            n as real == u * (w as real) + rest as real,
            0 as real <= rest as real,
            u > rest as real,
            u > 0 as real,
    ;
}

/// The ceiling is the least integer that is not below the number.
pub proof fn ceilings_are_least(a: Binary32)
    requires
        is_finite(a),
    ensures
        size(real_of(a)) <= 0x7fff_ffff as real ==> real_of(a) > (binary32::ceiling(a) - 1) as real && real_of(a)
            <= binary32::ceiling(a) as real,
{
    reveal(binary32::ceiling);
    lemma_units();
    lemma_real_value(a);
    let unit = binary32::one_in_units() as int;
    let n = -a.value();
    let (w, rest) = (n / unit, n % unit);
    lemma_pow2_pos(149);
    vstd::arithmetic::div_mod::lemma_fundamental_div_mod(n, unit);
    let (u, x) = (unit as real, real_of(a));
    assert((unit * w) as real == (unit as real) * (w as real)) by (nonlinear_arith);
    assert(w as real <= -x && -x < w as real + 1 as real) by (nonlinear_arith)
        requires
            x * u == -(n as real),
            n as real == u * (w as real) + rest as real,
            0 as real <= rest as real,
            u > rest as real,
            u > 0 as real,
    ;
}

/// A number is brought into a range: to the nearer end where it lies outside.
pub proof fn clamping_stops_at_the_ends(a: Binary32, low: Binary32, high: Binary32)
    requires
        is_finite(a),
        is_finite(low),
        is_finite(high),
        real_of(low) <= real_of(high),
    ensures
        is_finite(binary32::clamped(a, low, high)),
        real_of(binary32::clamped(a, low, high)) == (if real_of(a) < real_of(low) {
            real_of(low)
        } else if real_of(a) > real_of(high) {
            real_of(high)
        } else {
            real_of(a)
        }),
{
    reveal(binary32::clamped);
    comparisons_are_exact(a, low);
    comparisons_are_exact(high, a);
}

/// The distance of a product from zero.
pub proof fn sizes_multiply(x: real, y: real)
    ensures
        size(x * y) == size(x) * size(y),
{
    let (a, b) = (size(x), size(y));
    assert(x * y == a * b || x * y == -(a * b)) by (nonlinear_arith)
        requires
            x == a || x == -a,
            y == b || y == -b,
    ;
    assert(a * b >= 0 as real) by (nonlinear_arith)
        requires
            a >= 0 as real,
            b >= 0 as real,
    ;
}

/// A product grows with each of two factors that are not negative.
pub proof fn products_grow(a: real, b: real, c: real, d: real)
    requires
        0 as real <= a <= c,
        0 as real <= b <= d,
    ensures
        0 as real <= a * b <= c * d,
{
    assert(0 as real <= a * b && a * b <= c * d) by (nonlinear_arith)
        requires
            0 as real <= a,
            a <= c,
            0 as real <= b,
            b <= d,
    ;
}

/// A share of one unit roundoff.
pub proof fn roundoff_of(x: real)
    ensures
        (0x100_0000 as real) * (x * roundoff()) == x,
{
    let c = roundoff();
    assert((0x100_0000 as real) * (x * c) == x) by (nonlinear_arith)
        requires
            (0x100_0000 as real) * c == 1 as real,
    ;
}

/// A number of moderate size: at most `2^20`.
pub open spec fn is_moderate(a: Binary32) -> bool {
    is_finite(a) && size(real_of(a)) <= 0x10_0000 as real
}

/// A length that is far below anything that is measured.
pub open spec fn negligible() -> real {
    (1 as real) / (0x1_0000_0000_0000 as real)
}

/// What underflow costs is negligible, even many times over, and no number of moderate size is
/// anywhere near overflow.
pub proof fn underflow_is_negligible()
    ensures
        0 as real <= (0x1_0000_0000_0000 as real) * underflow() <= negligible(),
        large() >= 0x1000_0000_0000_0000_0000_0000_0000 as real,
{
    lemma_units();
    lemma2_to64();
    lemma2_to64_rest();
    lemma_pow2_adds(48, 48);
    lemma_pow2_strictly_increases(96, 149);
    lemma_pow2_adds(60, 60);
    lemma_pow2_strictly_increases(120, 127);
    let (u, w, e) = (binary32::one_in_units() as real, 0x1_0000_0000_0000 as real, underflow());
    assert(u >= w * w) by (nonlinear_arith)
        requires
            u >= 0x1_0000_0000_0000_0000_0000_0000 as real,
            w == 0x1_0000_0000_0000 as real,
    ;
    let n = negligible();
    assert(w * e <= n) by (nonlinear_arith)
        requires
            e * u == (1 as real) / (2 as real),
            u >= w * w,
            w == 0x1_0000_0000_0000 as real,
            n * w == 1 as real,
            e > 0 as real,
    ;
}

/// What the bits of a constant stand for: its significand, over a power of two.
pub proof fn constants_are(a: Binary32, below: nat)
    requires
        !a.negative(),
        a.scale() + below == 149,
    ensures
        real_of(a) * (pow2(below) as real) == a.significand() as real,
{
    lemma_real_value(a);
    lemma_units();
    lemma_pow2_adds(a.scale(), below);
    lemma_pow2_pos(a.scale());
    let (x, m, c, d, unit) = (
        real_of(a),
        a.significand() as int,
        pow2(a.scale()) as int,
        pow2(below) as int,
        binary32::one_in_units() as int,
    );
    assert((m * c) as real == (m as real) * (c as real)) by (nonlinear_arith);
    assert((c * d) as real == (c as real) * (d as real)) by (nonlinear_arith);
    let (mr, cr, dr) = (m as real, c as real, d as real);
    assert(x * dr == mr) by (nonlinear_arith)
        requires
            x * (cr * dr) == mr * cr,
            cr > 0 as real,
    ;
}

/// The square of a root is off by at most a part in `2^22`.
#[verifier::spinoff_prover]
pub proof fn roots_are_accurate(a: Binary32)
    requires
        is_finite(a),
        real_of(a) >= 0 as real,
    ensures
        is_finite(binary32::square_root(a)),
        real_of(binary32::square_root(a)) >= 0 as real,
        (0x40_0000 as real) * size(
            real_of(binary32::square_root(a)) * real_of(binary32::square_root(a)) - real_of(a),
        ) <= real_of(binary32::square_root(a)) * real_of(binary32::square_root(a)),
{
    reveal(binary32::square_root);
    lemma_units();
    lemma_real_size(a);
    binary32::lemma_parts(a);
    let b = binary32::square_root(a);
    let unit = binary32::one_in_units();
    lemma_pow2_pos(149);
    let (u, x) = (unit as real, real_of(a));
    if a.is_zero() {
        assert(x == 0 as real) by (nonlinear_arith)
            requires
                size(x) * u == 0 as real,
                u > 0 as real,
                size(x) == x || size(x) == -x,
        ;
        assert(x * x == 0 as real) by (nonlinear_arith)
            requires
                x == 0 as real,
        ;
    } else {
        assert(x > 0 as real) by (nonlinear_arith)
            requires
                size(x) * u == a.size() as real,
                a.size() > 0,
                u > 0 as real,
                x >= 0 as real,
                x < 0 as real || size(x) == x,
        ;
        assert(!a.negative());
        let r = a.size() * unit;
        let (k, m) = rounding::nearest_root_is_half_a_place_off(r);
        lemma_root_binade(a, k);
        let bits = rounding::packed(k, m);
        binary32::lemma_with_sign(false, bits);
        assert(bits < INFINITY_BITS);
        binary32::lemma_packed_size(false, k, m);
        lemma_real_size(b);
        let c = pow2(k);
        let (s, sr, y) = (m * c, (m * c) as real, real_of(b));
        // In units: the root lies between s - c / 2 and s + c / 2, and c is small beside s.
        let (hi, lo) = ((2 * m + 1) * c, (2 * m - 1) * c);
        assert(hi == 2 * s + c && lo == 2 * s - c && 0x80_0000 * c <= s) by (nonlinear_arith)
            requires
                hi == (2 * m + 1) * c,
                lo == (2 * m - 1) * c,
                s == m * c,
                m >= 0x80_0000,
        ;
        let (hr, lr, rr) = (hi as real, lo as real, r as real);
        assert((hi * hi) as real == (hi as real) * (hi as real)) by (nonlinear_arith);
        assert((lo * lo) as real == (lo as real) * (lo as real)) by (nonlinear_arith);
        let an = a.size();
        assert((an * unit) as real == (an as real) * (unit as real)) by (nonlinear_arith);
        let cr = c as real;
        let q = sr * sr;
        assert((0x40_0000 as real) * (rr - q) <= q && (0x40_0000 as real) * (q - rr) <= q) by (nonlinear_arith)
            requires
                q == sr * sr,
                hr == 2 as real * sr + cr,
                lr == 2 as real * sr - cr,
                (0x80_0000 as real) * cr <= sr,
                cr >= 0 as real,
                4 as real * rr <= hr * hr,
                lr * lr <= 4 as real * rr,
        ;
        let yy = y * y;
        assert(rr == x * (u * u) && q == yy * (u * u)) by (nonlinear_arith)
            requires
                rr == (an as real) * u,
                an as real == x * u,
                q == sr * sr,
                sr == y * u,
                yy == y * y,
        ;
        let v = u * u;
        assert((0x40_0000 as real) * (x - yy) <= yy && (0x40_0000 as real) * (yy - x) <= yy) by (nonlinear_arith)
            requires
                rr == x * v,
                q == yy * v,
                v == u * u,
                u > 0 as real,
                (0x40_0000 as real) * (rr - q) <= q,
                (0x40_0000 as real) * (q - rr) <= q,
        ;
    }
}

/// The binade of a root is neither the lowest nor near the highest.
proof fn lemma_root_binade(a: Binary32, k: nat)
    requires
        is_finite(a),
        !a.is_zero(),
        rounding::root_in_binade(a.size() * binary32::one_in_units(), k),
    ensures
        0 < k < 200,
{
    lemma2_to64();
    binary32::lemma_parts(a);
    let unit = binary32::one_in_units();
    let r = a.size() * unit;
    lemma_pow2_pos(149);
    assert(r >= unit) by (nonlinear_arith)
        requires
            r == a.size() * unit,
            a.size() >= 1,
    ;
    if k == 0 {
        lemma_pow2_adds(24, 24);
        lemma_pow2_strictly_increases(48, 149);
    }
    if k >= 200 {
        let (n, e) = (a.significand(), a.scale());
        lemma_pow2_adds(24, e);
        let (c, d) = (pow2(e), pow2(24 + e));
        lemma_pow2_pos(e);
        assert(n * c < d) by (nonlinear_arith)
            requires
                d == 0x100_0000 * c,
                n < 0x100_0000,
                c > 0,
        ;
        if 24 + e < 277 {
            lemma_pow2_strictly_increases(24 + e, 277);
        }
        lemma_pow2_adds(277, 149);
        let big = pow2(277);
        assert(r < big * unit) by (nonlinear_arith)
            requires
                r == a.size() * unit,
                a.size() < big,
                unit > 0,
        ;
        lemma_pow2_adds(k + 23, k + 23);
        lemma_pow2_strictly_increases(426, (k + 23 + k + 23) as nat);
    }
}

/// The sign bit says which numbers are below zero.
pub proof fn signs_are_kept(a: Binary32)
    requires
        is_finite(a),
    ensures
        real_of(a) < 0 as real <==> a.negative() && !a.is_zero(),
        real_of(a) > 0 as real <==> !a.negative() && !a.is_zero(),
        real_of(a) == 0 as real <==> a.is_zero(),
{
    lemma_units();
    lemma_real_size(a);
    binary32::lemma_parts(a);
    let (x, u, n) = (size(real_of(a)), binary32::one_in_units() as real, a.size() as real);
    assert(x == 0 as real <==> n == 0 as real) by (nonlinear_arith)
        requires
            x * u == n,
            u > 0 as real,
    ;
}

/// A product is on the same side of zero as the exact one, or zero.
pub proof fn products_keep_the_sign(a: Binary32, b: Binary32)
    requires
        is_finite(a),
        is_finite(b),
        is_finite(binary32::product(a, b)),
    ensures
        real_of(a) * real_of(b) >= 0 as real ==> real_of(binary32::product(a, b)) >= 0 as real,
        real_of(a) * real_of(b) <= 0 as real ==> real_of(binary32::product(a, b)) <= 0 as real,
{
    reveal(binary32::product);
    signs_are_kept(a);
    signs_are_kept(b);
    signs_are_kept(binary32::product(a, b));
    lemma_pow2_pos(149);
    lemma_nearest(a.negative() != b.negative(), a.size() * b.size(), binary32::one_in_units());
    let (x, y) = (real_of(a), real_of(b));
    if a.is_zero() {
        binary32::times_zero_is_zero(a, b);
    } else if b.is_zero() {
        binary32::times_zero_is_zero(b, a);
    } else {
        assert((x > 0 as real && y > 0 as real || x < 0 as real && y < 0 as real) ==> x * y > 0 as real)
            by (nonlinear_arith);
        assert((x > 0 as real && y < 0 as real || x < 0 as real && y > 0 as real) ==> x * y < 0 as real)
            by (nonlinear_arith);
    }
}

/// A number added to itself is exactly twice as large, unless that is too large.
pub proof fn twice_is_exact(a: Binary32)
    requires
        is_finite(a),
        is_finite(binary32::sum(a, a)),
    ensures
        real_of(binary32::sum(a, a)) == (2 as real) * real_of(a),
{
    binary32::sum_with_itself_is_twice(a);
    lemma_units();
    lemma_real_value(a);
    lemma_real_value(binary32::sum(a, a));
    let (x, y, u) = (real_of(a), real_of(binary32::sum(a, a)), binary32::one_in_units() as real);
    assert(y == (2 as real) * x) by (nonlinear_arith)
        requires
            y * u == (2 as real) * (x * u),
            u > 0 as real,
    ;
}

/// A product of finite numbers is a number. One that is too large is cut to the end of `i32`.
pub proof fn finite_products(a: Binary32, b: Binary32)
    requires
        is_finite(a),
        is_finite(b),
    ensures
        !binary32::product(a, b).is_nan(),
        !is_finite(binary32::product(a, b)) && real_of(a) >= 0 as real && real_of(b) >= 0 as real
            ==> binary32::truncated(binary32::product(a, b)) == i32::MAX,
{
    reveal(binary32::product);
    lemma_pow2_pos(149);
    lemma_nearest(a.negative() != b.negative(), a.size() * b.size(), binary32::one_in_units());
    signs_are_kept(a);
    signs_are_kept(b);
    let r = binary32::product(a, b);
    if !is_finite(r) && real_of(a) >= 0 as real && real_of(b) >= 0 as real {
        if a.is_zero() {
            binary32::times_zero_is_zero(a, b);
        } else if b.is_zero() {
            binary32::times_zero_is_zero(b, a);
        }
        assert(!r.negative() && r.is_infinite());
        lemma2_to64();
        assert(r.scale() == 254 && r.significand() == 0x80_0000);
        lemma_pow2_adds(23, 254);
        lemma_pow2_adds(128, 149);
        lemma_pow2_adds(64, 64);
        let (c, unit) = (pow2(128) as int, binary32::one_in_units() as int);
        vstd::arithmetic::div_mod::lemma_div_by_multiple(c, unit);
        lemma_pow2_strictly_increases(32, 128);
        reveal(binary32::truncated);
    }
}

/// The smallest numbers, which have fewer digits, are negligible.
pub proof fn smallest_numbers(a: Binary32)
    requires
        a.magnitude() <= 0x80_0000,
    ensures
        size(real_of(a)) <= negligible(),
{
    lemma2_to64();
    underflow_is_negligible();
    lemma_units();
    lemma_real_size(a);
    assert(a.scale() == 0 && a.significand() <= 0x80_0000);
    assert(a.size() == a.significand() * 1);
    let (x, u, e) = (size(real_of(a)), binary32::one_in_units() as real, underflow());
    assert(x <= (0x100_0000 as real) * e) by (nonlinear_arith)
        requires
            x * u <= 0x80_0000 as real,
            e * u == (1 as real) / (2 as real),
            u > 0 as real,
    ;
}

/// The number nearest to a ratio of units is off by at most one unit roundoff, or by half of the
/// smallest number.
pub proof fn nearest_ratios_are_accurate(p: nat, q: nat, exact: real)
    requires
        q > 0,
        exact >= 0 as real,
        exact <= large(),
        exact * ((q * binary32::one_in_units()) as real) == p as real,
    ensures
        ({
            let r = binary32::with_sign(false, rounding::nearest_ratio(p, q));
            &&& is_finite(r)
            &&& size(real_of(r) - exact) <= exact * roundoff() + underflow()
        }),
{
    lemma_units();
    let unit = binary32::one_in_units();
    let r = binary32::with_sign(false, rounding::nearest_ratio(p, q));
    lemma_nearest(false, p, q);
    lemma_real_size(r);
    let (u, qr, pr, big) = (unit as real, q as real, p as real, large());
    assert((q * unit) as real == (q as real) * (unit as real)) by (nonlinear_arith);
    let pw = pow2(276);
    assert((q * pw) as real == (q as real) * (pw as real)) by (nonlinear_arith);
    assert(pr <= qr * (pw as real)) by (nonlinear_arith)
        requires
            exact * (qr * u) == pr,
            exact <= big,
            big * u == pw as real,
            qr > 0 as real,
            u > 0 as real,
    ;
    let rn = r.size();
    assert((rn * q) as real == (rn as real) * (q as real)) by (nonlinear_arith);
    let (z, v, e) = (size(real_of(r)), qr * u, underflow());
    let rq = (rn * q) as real;
    assert(0x100_0000 as real * (rq - pr) <= pr + 0x80_0000 as real * qr);
    assert(0x100_0000 as real * (pr - rq) <= pr + 0x80_0000 as real * qr);
    assert(rq == z * v && qr == 2 as real * (e * v) && v > 0 as real) by (nonlinear_arith)
        requires
            rq == (rn as real) * qr,
            rn as real == z * u,
            v == qr * u,
            e * u == (1 as real) / (2 as real),
            qr > 0 as real,
            u > 0 as real,
    ;
    assert((z - exact) * v == z * v - exact * v && (exact - z) * v == exact * v - z * v) by (nonlinear_arith);
    lemma_divide(z - exact, exact, e, v);
    lemma_divide(exact - z, exact, e, v);
}

/// What a ratio is rounded to fits the bits below the sign.
pub proof fn rounded_magnitudes(p: nat, q: nat)
    requires
        q > 0,
    ensures
        rounding::nearest_ratio(p, q) <= INFINITY_BITS,
{
    let (k, m) = rounding::nearest_is_half_a_place_off(p, q);
}

} // verus!
