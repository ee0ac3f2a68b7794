use crate::rounding;
use crate::rounding::INFINITY_BITS;
use vstd::arithmetic::power2::*;
use vstd::prelude::*;

verus! {

/// A single-precision floating-point number, held as its bits.
///
/// Two values are `==` when their bits are, which is not how numbers compare: see
/// [`Binary32::less_than`].
#[derive(Clone, Copy, Debug, PartialEq, Eq, Structural)]
pub struct Binary32 {
    /// Sign, biased exponent and fraction, from the high bit down.
    pub bits: u32,
}

impl Binary32 {
    /// The sign bit is set.
    pub open spec fn negative(self) -> bool {
        self.bits >= 0x8000_0000
    }

    /// The bits below the sign.
    pub open spec fn magnitude(self) -> nat {
        (self.bits % 0x8000_0000) as nat
    }

    /// Not a number.
    pub open spec fn is_nan(self) -> bool {
        self.magnitude() > INFINITY_BITS
    }

    /// One of the two infinities.
    pub open spec fn is_infinite(self) -> bool {
        self.magnitude() == INFINITY_BITS
    }

    /// One of the two zeros.
    pub open spec fn is_zero(self) -> bool {
        self.magnitude() == 0
    }

    /// The significand, with its leading bit.
    pub open spec fn significand(self) -> nat {
        if self.magnitude() < 0x80_0000 {
            self.magnitude()
        } else {
            0x80_0000 + self.magnitude() % 0x80_0000
        }
    }

    /// The power of two, in units of `2^-149`, that the significand counts.
    pub open spec fn scale(self) -> nat {
        if self.magnitude() < 0x80_0000 {
            0
        } else {
            (self.magnitude() / 0x80_0000 - 1) as nat
        }
    }

    /// The absolute value in units of `2^-149`, of which every finite number is a multiple. That
    /// of infinity is the first power of two that is too large.
    pub open spec fn size(self) -> nat {
        self.significand() * pow2(self.scale())
    }

    /// The value in units of `2^-149`.
    pub open spec fn value(self) -> int {
        if self.negative() {
            -(self.size() as int)
        } else {
            self.size() as int
        }
    }
}

/// The unit of [`Binary32::value`] goes this many times into 1.
pub open spec fn one_in_units() -> nat {
    pow2(149)
}

/// The number with the given sign and magnitude bits.
pub open spec fn with_sign(negative: bool, magnitude: nat) -> Binary32 {
    Binary32 {
        bits: if negative {
            (0x8000_0000 + magnitude) as u32
        } else {
            magnitude as u32
        },
    }
}

/// The quiet not-a-number that every undefined operation gives.
pub open spec fn nan() -> Binary32 {
    Binary32 { bits: 0x7fc0_0000 }
}

/// The absolute value of an integer.
pub open spec fn absolute(v: int) -> nat {
    if v < 0 {
        (-v) as nat
    } else {
        v as nat
    }
}

/// The number nearest to the integer `v`.
#[verifier::opaque]
pub open spec fn of_int(v: int) -> Binary32 {
    with_sign(v < 0, rounding::nearest_ratio(absolute(v) * one_in_units(), 1))
}

/// `a < b`; false where either is not a number.
#[verifier::opaque]
pub open spec fn less(a: Binary32, b: Binary32) -> bool {
    !a.is_nan() && !b.is_nan() && a.value() < b.value()
}

/// `-a`.
#[verifier::opaque]
pub open spec fn negation(a: Binary32) -> Binary32 {
    with_sign(!a.negative(), a.magnitude())
}

/// `a + b`, rounded to nearest.
#[verifier::opaque]
pub open spec fn sum(a: Binary32, b: Binary32) -> Binary32 {
    if a.is_nan() || b.is_nan() {
        nan()
    } else if a.is_infinite() {
        if b.is_infinite() && a.negative() != b.negative() {
            nan()
        } else {
            a
        }
    } else if b.is_infinite() {
        b
    } else {
        let v = a.value() + b.value();
        if v == 0 {
            with_sign(a.negative() && b.negative(), 0)
        } else {
            with_sign(v < 0, rounding::nearest_ratio(absolute(v), 1))
        }
    }
}

/// `a - b`, rounded to nearest.
#[verifier::opaque]
pub open spec fn difference(a: Binary32, b: Binary32) -> Binary32 {
    sum(a, negation(b))
}

/// `a * b`, rounded to nearest.
#[verifier::opaque]
pub open spec fn product(a: Binary32, b: Binary32) -> Binary32 {
    let negative = a.negative() != b.negative();
    if a.is_nan() || b.is_nan() {
        nan()
    } else if a.is_infinite() || b.is_infinite() {
        if a.is_zero() || b.is_zero() {
            nan()
        } else {
            with_sign(negative, INFINITY_BITS as nat)
        }
    } else {
        with_sign(negative, rounding::nearest_ratio(a.size() * b.size(), one_in_units()))
    }
}

/// `a / b`, rounded to nearest.
#[verifier::opaque]
pub open spec fn quotient(a: Binary32, b: Binary32) -> Binary32 {
    let negative = a.negative() != b.negative();
    if a.is_nan() || b.is_nan() || a.is_infinite() && b.is_infinite() || a.is_zero() && b.is_zero() {
        nan()
    } else if a.is_infinite() || b.is_zero() {
        with_sign(negative, INFINITY_BITS as nat)
    } else if b.is_infinite() {
        with_sign(negative, 0)
    } else {
        with_sign(negative, rounding::nearest_ratio(a.size() * one_in_units(), b.size()))
    }
}

/// The square root of `a`, rounded to nearest.
#[verifier::opaque]
pub open spec fn square_root(a: Binary32) -> Binary32 {
    if a.is_nan() || a.negative() && !a.is_zero() {
        nan()
    } else if a.is_zero() || a.is_infinite() {
        a
    } else {
        with_sign(false, rounding::nearest_root(a.size() * one_in_units()))
    }
}

/// `v`, or the end of the range of `i32` that it lies beyond.
pub open spec fn saturated(v: int) -> int {
    if v < i32::MIN {
        i32::MIN as int
    } else if v > i32::MAX {
        i32::MAX as int
    } else {
        v
    }
}

/// `a` without its fraction, saturated; 0 where `a` is not a number.
#[verifier::opaque]
pub open spec fn truncated(a: Binary32) -> int {
    if a.is_nan() {
        0
    } else {
        let whole = (a.size() / one_in_units()) as int;
        saturated(if a.negative() { -whole } else { whole })
    }
}

/// The least integer that is not below `a`, saturated; 0 where `a` is not a number.
#[verifier::opaque]
pub open spec fn ceiling(a: Binary32) -> int {
    if a.is_nan() {
        0
    } else {
        saturated(-((-a.value()) / (one_in_units() as int)))
    }
}

/// `a`, or the bound that it lies beyond; `a` where it is not a number.
#[verifier::opaque]
pub open spec fn clamped(a: Binary32, low: Binary32, high: Binary32) -> Binary32 {
    if less(a, low) {
        low
    } else if less(high, a) {
        high
    } else {
        a
    }
}

/// The bits of [`with_sign`], and what it keeps.
pub(crate) proof fn lemma_with_sign(negative: bool, magnitude: nat)
    requires
        magnitude <= INFINITY_BITS,
    ensures
        with_sign(negative, magnitude).negative() == negative,
        with_sign(negative, magnitude).magnitude() == magnitude,
{
}

/// The ranges of significand and scale; only zeros have no size.
pub proof fn lemma_parts(a: Binary32)
    requires
        !a.is_nan(),
    ensures
        a.significand() < 0x100_0000,
        a.scale() <= 254,
        !a.is_infinite() ==> a.scale() <= 253,
        a.scale() > 0 ==> a.significand() >= 0x80_0000,
        a.is_zero() <==> a.significand() == 0,
        a.is_zero() <==> a.size() == 0,
{
    lemma_pow2_pos(a.scale());
    let m = a.significand();
    let c = pow2(a.scale());
    assert(m == 0 <==> m * c == 0) by (nonlinear_arith)
        requires
            c > 0,
    ;
}

/// Larger magnitude bits, larger size.
pub(crate) proof fn lemma_size_increases(a: Binary32, b: Binary32)
    requires
        a.magnitude() < b.magnitude() <= INFINITY_BITS,
    ensures
        a.size() < b.size(),
{
    lemma2_to64();
    lemma_parts(a);
    lemma_parts(b);
    let ma = a.significand();
    let mb = b.significand();
    let ca = pow2(a.scale());
    let cb = pow2(b.scale());
    lemma_pow2_pos(a.scale());
    if a.scale() == b.scale() {
        assert(ma < mb);
        assert(ma * ca < mb * ca) by (nonlinear_arith)
            requires
                ma < mb,
                ca > 0,
        ;
    } else {
        assert(a.scale() < b.scale());
        lemma_pow2_unfold((a.scale() + 1) as nat);
        if a.scale() + 1 < b.scale() {
            lemma_pow2_strictly_increases((a.scale() + 1) as nat, b.scale());
        }
        assert(2 * ca <= cb);
        assert(ma * ca < mb * cb) by (nonlinear_arith)
            requires
                2 * ca <= cb,
                ca > 0,
                ma < 0x100_0000,
                mb >= 0x80_0000,
        ;
    }
}

impl Binary32 {
    /// The number with these bits.
    pub fn from_bits(bits: u32) -> (r: Binary32)
        ensures
            r.bits == bits,
    {
        Binary32 { bits }
    }

    fn is_negative(self) -> (r: bool)
        ensures
            r == self.negative(),
    {
        self.bits >= 0x8000_0000
    }

    fn magnitude_bits(self) -> (r: u32)
        ensures
            r == self.magnitude(),
            r < 0x8000_0000,
    {
        self.bits % 0x8000_0000
    }

    fn signed(negative: bool, magnitude: u32) -> (r: Binary32)
        requires
            magnitude < 0x8000_0000,
        ensures
            r == with_sign(negative, magnitude as nat),
    {
        Binary32 {
            bits: if negative {
                0x8000_0000 + magnitude
            } else {
                magnitude
            },
        }
    }

    fn unpack(self) -> (r: (u128, i32))
        requires
            !self.is_nan(),
        ensures
            r.0 == self.significand(),
            r.1 == self.scale(),
    {
        let magnitude: u32 = self.bits % 0x8000_0000;
        if magnitude < 0x80_0000 {
            (magnitude as u128, 0)
        } else {
            (0x80_0000 + (magnitude % 0x80_0000) as u128, (magnitude / 0x80_0000) as i32 - 1)
        }
    }

    /// Whether this is not a number.
    pub fn not_a_number(self) -> (r: bool)
        ensures
            r == self.is_nan(),
    {
        self.magnitude_bits() > INFINITY_BITS
    }

    /// `self < other`; false where either is not a number.
    pub fn less_than(self, other: Binary32) -> (r: bool)
        ensures
            r == less(self, other),
    {
        proof {
            reveal(less);
        }
        if self.not_a_number() || other.not_a_number() {
            return false;
        }
        let a: u32 = self.magnitude_bits();
        let b: u32 = other.magnitude_bits();
        proof {
            lemma_parts(self);
            lemma_parts(other);
            if a < b {
                lemma_size_increases(self, other);
            } else if b < a {
                lemma_size_increases(other, self);
            }
        }
        if self.is_negative() {
            if other.is_negative() {
                b < a
            } else {
                a != 0 || b != 0
            }
        } else {
            if other.is_negative() {
                false
            } else {
                a < b
            }
        }
    }
}

/// A finite number read as significand and scale approximates its own size exactly.
proof fn lemma_whole_multiple(m: nat, e: nat, p: nat)
    requires
        p == m * pow2(e),
    ensures
        rounding::approximates(m, e as int, false, p, 1),
{
    lemma2_to64();
    lemma_pow2_pos(e);
    let a = pow2(e);
    assert(m * (a * 1) == p * 1 && p * 1 < (m + 1) * (a * 1)) by (nonlinear_arith)
        requires
            p == m * a,
            a > 0,
    ;
}

impl Binary32 {
    /// The number nearest to an integer.
    pub fn from_i32(v: i32) -> (r: Binary32)
        ensures
            r == of_int(v as int),
    {
        proof {
            reveal(of_int);
        }
        let negative = v < 0;
        let m: u128 = if v < 0 {
            (-(v as i64)) as u128
        } else {
            v as u128
        };
        proof {
            lemma2_to64();
            lemma_pow2_strictly_increases(32, 120);
            lemma_whole_multiple(m as nat, 149, absolute(v as int) * one_in_units());
        }
        let magnitude = rounding::round_ratio(m, 149, false, Ghost(absolute(v as int) * one_in_units()), Ghost(1));
        Binary32::signed(negative, magnitude)
    }

    /// `-self`.
    pub fn negated(self) -> (r: Binary32)
        ensures
            r == negation(self),
    {
        proof {
            reveal(negation);
        }
        Binary32::signed(!self.is_negative(), self.magnitude_bits())
    }

    /// `self + other`, rounded to nearest.
    pub fn plus(self, other: Binary32) -> (r: Binary32)
        ensures
            r == sum(self, other),
    {
        proof {
            reveal(sum);
        }
        if self.not_a_number() || other.not_a_number() {
            return Binary32 { bits: 0x7fc0_0000 };
        }
        let a: u32 = self.magnitude_bits();
        let b: u32 = other.magnitude_bits();
        if a == INFINITY_BITS {
            if b == INFINITY_BITS && self.is_negative() != other.is_negative() {
                return Binary32 { bits: 0x7fc0_0000 };
            }
            return self;
        }
        if b == INFINITY_BITS {
            return other;
        }
        if a < b {
            sum_ordered(other, self)
        } else {
            sum_ordered(self, other)
        }
    }

    /// `self - other`, rounded to nearest.
    pub fn minus(self, other: Binary32) -> (r: Binary32)
        ensures
            r == difference(self, other),
    {
        proof {
            reveal(difference);
        }
        self.plus(other.negated())
    }
}

/// The sum of two finite numbers, the one of larger size first.
#[verifier::spinoff_prover]
fn sum_ordered(x: Binary32, y: Binary32) -> (r: Binary32)
    requires
        y.magnitude() <= x.magnitude() < INFINITY_BITS,
    ensures
        r == sum(x, y),
        r == sum(y, x),
{
    proof {
        reveal(sum);
        lemma2_to64();
        lemma_parts(x);
        lemma_parts(y);
        if y.magnitude() < x.magnitude() {
            lemma_size_increases(y, x);
        }
        lemma_pow2_strictly_increases(64, 120);
    }
    let ghost v = x.value() + y.value();
    let (mx, kx) = x.unpack();
    let (my, ky) = y.unpack();
    let same = x.is_negative() == y.is_negative();
    let gap: i32 = kx - ky;
    let ghost px = pow2(kx as nat);
    let ghost py = pow2(ky as nat);
    proof {
        assert(kx >= ky);
        assert(absolute(v) == (if same { x.size() + y.size() } else { (x.size() - y.size()) as nat }));
    }
    if gap <= 26 {
        let c = rounding::two_to(gap as u32);
        proof {
            lemma_pow2_adds(gap as nat, ky as nat);
            lemma_pow2_pos(ky as nat);
            if gap < 26 {
                lemma_pow2_strictly_increases(gap as nat, 26);
            }
            let (mxi, ci) = (mx as int, c as int);
            assert(0 <= mxi * ci < 0x100_0000 * 0x400_0001) by (nonlinear_arith)
                requires
                    0 <= mxi < 0x100_0000,
                    0 <= ci <= 0x400_0000,
            ;
            assert((mxi * ci) * py == mxi * px) by (nonlinear_arith)
                requires
                    px == ci * py,
            ;
        }
        let shifted: u128 = mx * c;
        proof {
            let (si, myi) = (shifted as int, my as int);
            assert(si * py == x.size() && myi * py == y.size());
            assert(myi <= si) by (nonlinear_arith)
                requires
                    myi * py <= si * py,
                    py > 0,
            ;
            assert((si + myi) * py == si * py + myi * py) by (nonlinear_arith);
            assert((si - myi) * py == si * py - myi * py) by (nonlinear_arith);
        }
        let total: u128 = if same {
            shifted + my
        } else {
            shifted - my
        };
        proof {
            let t = total as int;
            assert(t == 0 <==> t * py == 0) by (nonlinear_arith)
                requires
                    py > 0,
            ;
            assert(absolute(v) == total as nat * py);
            lemma_whole_multiple(total as nat, ky as nat, absolute(v));
        }
        if total == 0 {
            return Binary32::signed(x.is_negative() && y.is_negative(), 0);
        }
        let magnitude = rounding::round_ratio(total, ky, false, Ghost(absolute(v)), Ghost(1));
        Binary32::signed(x.is_negative(), magnitude)
    } else {
        // The smaller number is less than an eighth of the last place of the larger one.
        let eighths: u128 = mx * 8;
        let ghost pe = pow2((kx - 3) as nat);
        proof {
            lemma_pow2_adds(3, (kx - 3) as nat);
            lemma_pow2_adds(24, ky as nat);
            if ky + 24 < kx - 3 {
                lemma_pow2_strictly_increases((ky + 24) as nat, (kx - 3) as nat);
            }
            lemma_pow2_pos((kx - 3) as nat);
            lemma_pow2_pos(ky as nat);
            let (mxi, myi) = (mx as int, my as int);
            assert((mxi * 8) * pe == mxi * px) by (nonlinear_arith)
                requires
                    px == 8 * pe,
            ;
            assert(0 <= myi * py < pe) by (nonlinear_arith)
                requires
                    0 <= myi < 0x100_0000,
                    0x100_0000 * py <= pe,
                    py > 0,
            ;
        }
        let cut = my != 0;
        let m: u128 = if same || my == 0 {
            eighths
        } else {
            eighths - 1
        };
        proof {
            let (ei, mi) = (eighths as int, m as int);
            assert((ei - 1) * pe == ei * pe - pe) by (nonlinear_arith);
            assert((mi + 1) * (pe * 1) == mi * pe + pe) by (nonlinear_arith);
            assert(mi * (pe * 1) == mi * pe);
            let p = absolute(v);
            assert(p * pow2(0) == p);
            assert(rounding::approximates(m as nat, kx - 3, cut, p, 1));
            assert(v != 0) by {
                assert(ei * pe >= pe) by (nonlinear_arith)
                    requires
                        ei >= 1,
                ;
            }
        }
        let magnitude = rounding::round_ratio(m, kx - 3, cut, Ghost(absolute(v)), Ghost(1));
        Binary32::signed(x.is_negative(), magnitude)
    }
}

/// What rounding gets for the product of two sizes.
proof fn lemma_product_approximates(ma: nat, ka: nat, mb: nat, kb: nat)
    ensures
        rounding::approximates(
            ma * mb,
            ka + kb - 149,
            false,
            (ma * pow2(ka)) * (mb * pow2(kb)),
            pow2(149),
        ),
{
    let e = ka + kb - 149;
    let (pa, pb, q) = (pow2(ka), pow2(kb), pow2(149));
    let p = (ma * pa) * (mb * pb);
    let m = ma * mb;
    lemma2_to64();
    lemma_pow2_pos(149);
    lemma_pow2_adds(ka, kb);
    assert(p == m * (pa * pb)) by (nonlinear_arith)
        requires
            p == (ma * pa) * (mb * pb),
            m == ma * mb,
    ;
    if e >= 0 {
        let a = pow2(e as nat);
        lemma_pow2_adds(e as nat, 149);
        lemma_pow2_pos(e as nat);
        assert(m * (a * q) == p * 1 && p * 1 < (m + 1) * (a * q)) by (nonlinear_arith)
            requires
                p == m * (pa * pb),
                a * q == pa * pb,
                a > 0,
                q > 0,
        ;
    } else {
        let b = pow2((-e) as nat);
        lemma_pow2_adds((ka + kb) as nat, (-e) as nat);
        assert(m * (1 * q) == p * b && p * b < (m + 1) * (1 * q)) by (nonlinear_arith)
            requires
                p == m * (pa * pb),
                (pa * pb) * b == q,
                q > 0,
        ;
    }
}

/// What rounding gets for the quotient of two sizes.
proof fn lemma_quotient_approximates(ma: nat, ka: nat, mb: nat, kb: nat)
    requires
        mb > 0,
    ensures
        rounding::approximates(
            (ma * pow2(50)) / mb,
            ka - kb + 99,
            (ma * pow2(50)) % mb != 0,
            (ma * pow2(ka)) * pow2(149),
            mb * pow2(kb),
        ),
{
    let e = ka - kb + 99;
    let n = ma * pow2(50);
    let (m, rest) = (n / mb, n % mb);
    let (p, q) = ((ma * pow2(ka)) * pow2(149), mb * pow2(kb));
    let cut = rest != 0;
    lemma2_to64();
    assert(n == m * mb + rest && rest < mb) by (nonlinear_arith)
        requires
            mb > 0,
            m == n / mb,
            rest == n % mb,
    ;
    if e >= 0 {
        let x = pow2((ka + 99) as nat);
        let a = pow2(e as nat);
        let pk = pow2(kb);
        lemma_pow2_pos((ka + 99) as nat);
        lemma_pow2_adds(e as nat, kb);
        lemma_pow2_adds((ka + 99) as nat, 50);
        lemma_pow2_adds(ka, 149);
        let (p50, pa, unit) = (pow2(50), pow2(ka), pow2(149));
        assert(a * q == mb * x) by (nonlinear_arith)
            requires
                q == mb * pk,
                a * pk == x,
        ;
        assert(p == n * x) by (nonlinear_arith)
            requires
                p == (ma * pa) * unit,
                pa * unit == x * p50,
                n == ma * p50,
        ;
        lemma_scaled_division(n, mb, m, rest, x);
        assert(p * 1 == p);
    } else {
        let x = pow2(kb);
        let b = pow2((-e) as nat);
        lemma_pow2_pos(kb);
        lemma_pow2_adds(ka, 149);
        lemma_pow2_adds((ka + 149) as nat, (-e) as nat);
        lemma_pow2_adds(kb, 50);
        assert(ka + 149 - e == kb + 50);
        let (p50, pa, unit) = (pow2(50), pow2(ka), pow2(149));
        assert(p * b == n * x) by (nonlinear_arith)
            requires
                p == (ma * pa) * unit,
                (pa * unit) * b == x * p50,
                n == ma * p50,
        ;
        assert(1 * q == mb * x);
        lemma_scaled_division(n, mb, m, rest, x);
    }
}

proof fn lemma_scaled_division(n: nat, d: nat, m: nat, rest: nat, x: nat)
    requires
        n == m * d + rest,
        rest < d,
        x > 0,
    ensures
        m * (d * x) <= n * x < (m + 1) * (d * x),
        rest != 0 <==> m * (d * x) != n * x,
{
    assert(n * x == m * (d * x) + rest * x) by (nonlinear_arith)
        requires
            n == m * d + rest,
    ;
    assert((m + 1) * (d * x) == m * (d * x) + d * x) by (nonlinear_arith);
    assert(rest * x < d * x) by (nonlinear_arith)
        requires
            rest < d,
            x > 0,
    ;
    assert(rest == 0 <==> rest * x == 0) by (nonlinear_arith)
        requires
            x > 0,
    ;
}

/// The square root of `n`, rounded down.
fn floor_square_root(n: u128) -> (r: u128)
    requires
        n < pow2(76),
    ensures
        r < pow2(38),
        r * r <= n,
        n < (r + 1) * (r + 1),
{
    let mut low: u128 = 0;
    let mut high: u128 = 0x40_0000_0000;
    proof {
        lemma2_to64();
        lemma_pow2_adds(32, 6);
        lemma_pow2_adds(38, 38);
        assert(pow2(38) == 0x40_0000_0000);
    }
    while high - low > 1
        invariant
            low < high <= 0x40_0000_0000,
            low * low <= n,
            n < high * high,
        decreases high - low,
    {
        let middle: u128 = low + (high - low) / 2;
        assert(middle * middle <= 0x40_0000_0000 * 0x40_0000_0000) by (nonlinear_arith)
            requires
                middle <= 0x40_0000_0000,
        ;
        if middle * middle <= n {
            low = middle;
        } else {
            high = middle;
        }
    }
    low
}

impl Binary32 {
    /// `self * other`, rounded to nearest.
    pub fn times(self, other: Binary32) -> (r: Binary32)
        ensures
            r == product(self, other),
    {
        proof {
            reveal(product);
        }
        if self.not_a_number() || other.not_a_number() {
            return Binary32 { bits: 0x7fc0_0000 };
        }
        let negative = self.is_negative() != other.is_negative();
        let a: u32 = self.magnitude_bits();
        let b: u32 = other.magnitude_bits();
        if a == INFINITY_BITS || b == INFINITY_BITS {
            if a == 0 || b == 0 {
                return Binary32 { bits: 0x7fc0_0000 };
            }
            return Binary32::signed(negative, INFINITY_BITS);
        }
        let (ma, ka) = self.unpack();
        let (mb, kb) = other.unpack();
        proof {
            lemma2_to64();
            lemma_pow2_pos(149);
            lemma_pow2_strictly_increases(64, 120);
            lemma_parts(self);
            lemma_parts(other);
            lemma_product_approximates(ma as nat, ka as nat, mb as nat, kb as nat);
            let (mai, mbi) = (ma as int, mb as int);
            assert(0 <= mai * mbi < 0x100_0000 * 0x100_0000) by (nonlinear_arith)
                requires
                    0 <= mai < 0x100_0000,
                    0 <= mbi < 0x100_0000,
            ;
        }
        let magnitude = rounding::round_ratio(
            ma * mb,
            ka + kb - 149,
            false,
            Ghost(self.size() * other.size()),
            Ghost(one_in_units()),
        );
        Binary32::signed(negative, magnitude)
    }

    /// `self / other`, rounded to nearest.
    #[verifier::spinoff_prover]
    pub fn over(self, other: Binary32) -> (r: Binary32)
        ensures
            r == quotient(self, other),
    {
        proof {
            reveal(quotient);
        }
        if self.not_a_number() || other.not_a_number() {
            return Binary32 { bits: 0x7fc0_0000 };
        }
        let negative = self.is_negative() != other.is_negative();
        let a: u32 = self.magnitude_bits();
        let b: u32 = other.magnitude_bits();
        if a == INFINITY_BITS && b == INFINITY_BITS || a == 0 && b == 0 {
            return Binary32 { bits: 0x7fc0_0000 };
        }
        if a == INFINITY_BITS || b == 0 {
            return Binary32::signed(negative, INFINITY_BITS);
        }
        if b == INFINITY_BITS {
            return Binary32::signed(negative, 0);
        }
        let (ma, ka) = self.unpack();
        let (mb, kb) = other.unpack();
        let shift = rounding::two_to(50);
        proof {
            lemma2_to64();
            lemma_pow2_adds(24, 26);
            lemma_pow2_adds(64, 10);
            lemma_pow2_strictly_increases(74, 120);
            lemma_parts(self);
            lemma_parts(other);
            lemma_quotient_approximates(ma as nat, ka as nat, mb as nat, kb as nat);
            let (mai, mbi, si) = (ma as int, mb as int, shift as int);
            assert(si == 0x100_0000 * 0x400_0000);
            assert(0 <= mai * si < 0x100_0000 * si) by (nonlinear_arith)
                requires
                    0 <= mai < 0x100_0000,
                    si > 0,
            ;
            let n = mai * si;
            assert(0 <= n / mbi <= n) by (nonlinear_arith)
                requires
                    mbi >= 1,
                    n >= 0,
            ;
            assert(mai >= 1 ==> n / mbi >= 0x100_0000) by (nonlinear_arith)
                requires
                    n == mai * si,
                    si == 0x100_0000 * 0x400_0000,
                    1 <= mbi < 0x100_0000,
            ;
            assert(mai == 0 ==> n % mbi == 0) by (nonlinear_arith)
                requires
                    n == mai * si,
                    mbi >= 1,
            ;
        }
        let n: u128 = ma * shift;
        let magnitude = rounding::round_ratio(
            n / mb,
            ka - kb + 99,
            n % mb != 0,
            Ghost(self.size() * one_in_units()),
            Ghost(other.size()),
        );
        Binary32::signed(negative, magnitude)
    }

    /// The square root, rounded to nearest.
    #[verifier::spinoff_prover]
    pub fn root(self) -> (r: Binary32)
        ensures
            r == square_root(self),
    {
        proof {
            reveal(square_root);
        }
        if self.not_a_number() {
            return Binary32 { bits: 0x7fc0_0000 };
        }
        let a: u32 = self.magnitude_bits();
        if a == 0 {
            return self;
        }
        if self.is_negative() {
            return Binary32 { bits: 0x7fc0_0000 };
        }
        if a == INFINITY_BITS {
            return self;
        }
        let (m, k) = self.unpack();
        // An even power of two is left outside the root.
        let shift: u32 = if k % 2 == 0 {
            51
        } else {
            50
        };
        let c = rounding::two_to(shift);
        let e: i32 = (k + 149 - shift as i32) / 2;
        let ghost r = self.size() * one_in_units();
        proof {
            lemma2_to64();
            lemma_parts(self);
            lemma_pow2_adds(24, 26);
            lemma_pow2_unfold(51);
            lemma_pow2_adds(64, 12);
            let (mi, ci) = (m as int, c as int);
            assert(0x100_0000 * 0x400_0000 <= ci <= 2 * 0x100_0000 * 0x400_0000);
            assert(ci <= mi * ci < 0x100_0000 * ci) by (nonlinear_arith)
                requires
                    1 <= mi < 0x100_0000,
                    ci > 0,
            ;
        }
        let n: u128 = m * c;
        let root = floor_square_root(n);
        let cut = root * root != n;
        proof {
            lemma_pow2_strictly_increases(38, 120);
            assert(root >= 0x100_0000) by (nonlinear_arith)
                requires
                    n < (root + 1) * (root + 1),
                    n >= 0x100_0000 * 0x400_0000,
            ;
            // size * 2^149 == n * 2^e * 2^e
            lemma_pow2_adds(e as nat, e as nat);
            lemma_pow2_adds(shift as nat, (e + e) as nat);
            lemma_pow2_adds(k as nat, 149);
            lemma_pow2_pos(e as nat);
            assert(shift + e + e == k + 149);
            let (pe, pk, unit) = (pow2(e as nat), pow2(k as nat), pow2(149));
            let (mi, ci, ni, ri) = (m as int, c as int, n as int, root as int);
            assert(r == (ni * pe) * pe) by (nonlinear_arith)
                requires
                    r == (mi * pk) * unit,
                    pk * unit == ci * (pe * pe),
                    ni == mi * ci,
            ;
            assert((ri * pe) * (ri * pe) == ((ri * ri) * pe) * pe) by (nonlinear_arith);
            assert(((ri + 1) * pe) * ((ri + 1) * pe) == (((ri + 1) * (ri + 1)) * pe) * pe) by (nonlinear_arith);
            let (low, high) = (ri * ri, (ri + 1) * (ri + 1));
            assert((low * pe) * pe <= (ni * pe) * pe) by (nonlinear_arith)
                requires
                    low <= ni,
                    pe > 0,
            ;
            assert((ni * pe) * pe < (high * pe) * pe) by (nonlinear_arith)
                requires
                    ni < high,
                    pe > 0,
            ;
            assert(low < ni ==> (low * pe) * pe < (ni * pe) * pe) by (nonlinear_arith)
                requires
                    pe > 0,
            ;
            assert(rounding::root_approximates(root as nat, e as nat, cut, r));
        }
        let magnitude = rounding::round_root(root, e, cut, Ghost(r));
        Binary32::signed(false, magnitude)
    }
}

impl Binary32 {
    /// The whole part of the absolute value, or any larger number where it exceeds `2^32`, and
    /// whether there is a fraction below it.
    #[verifier::spinoff_prover]
    fn whole_part(self) -> (r: (u128, bool))
        requires
            !self.is_nan(),
        ensures
            self.size() / one_in_units() < 0x1_0000_0000 ==> r.0 == self.size() / one_in_units(),
            self.size() / one_in_units() >= 0x1_0000_0000 ==> r.0 >= 0x1_0000_0000,
            r.1 == (self.size() % one_in_units() != 0),
    {
        let (m, k) = self.unpack();
        proof {
            lemma2_to64();
            lemma_parts(self);
            lemma_pow2_pos(149);
            lemma_pow2_pos(k as nat);
        }
        let ghost unit = one_in_units() as int;
        let ghost mi = m as int;
        if k >= 149 {
            let up: i32 = k - 149;
            let ghost c = pow2(up as nat) as int;
            proof {
                lemma_pow2_adds(up as nat, 149);
                let pk = pow2(k as nat) as int;
                assert(mi * pk == (mi * c) * unit) by (nonlinear_arith)
                    requires
                        pk == c * unit,
                ;
                let w = mi * c;
                assert((w * unit) / unit == w && (w * unit) % unit == 0) by {
                    vstd::arithmetic::div_mod::lemma_div_by_multiple(w, unit);
                    vstd::arithmetic::div_mod::lemma_mod_multiples_basic(w, unit);
                }
            }
            if up > 9 {
                proof {
                    lemma_pow2_strictly_increases(9, up as nat);
                    assert(mi * c >= 0x80_0000 * 512) by (nonlinear_arith)
                        requires
                            mi >= 0x80_0000,
                            c >= 512,
                    ;
                }
                (0x1_0000_0000, false)
            } else {
                let power = rounding::two_to(up as u32);
                proof {
                    if up < 9 {
                        lemma_pow2_strictly_increases(up as nat, 9);
                    }
                    assert(0 <= mi * c <= 0x100_0000 * 512) by (nonlinear_arith)
                        requires
                            0 <= mi < 0x100_0000,
                            0 < c <= 512,
                    ;
                }
                (m * power, false)
            }
        } else {
            let down: i32 = 149 - k;
            let ghost d = pow2(down as nat) as int;
            let ghost pk = pow2(k as nat) as int;
            proof {
                lemma_pow2_pos(down as nat);
                lemma_pow2_adds(down as nat, k as nat);
                let (w, rest) = (mi / d, mi % d);
                assert(mi == d * w + rest && 0 <= rest < d) by (nonlinear_arith)
                    requires
                        d > 0,
                        w == mi / d,
                        rest == mi % d,
                ;
                assert(mi * pk == w * unit + rest * pk) by (nonlinear_arith)
                    requires
                        mi == d * w + rest,
                        unit == d * pk,
                ;
                assert(0 <= rest * pk < unit) by (nonlinear_arith)
                    requires
                        0 <= rest < d,
                        unit == d * pk,
                        pk > 0,
                ;
                assert(rest == 0 <==> rest * pk == 0) by (nonlinear_arith)
                    requires
                        pk > 0,
                ;
                vstd::arithmetic::div_mod::lemma_fundamental_div_mod_converse(mi * pk, unit, w, rest * pk);
                assert(0 <= w <= mi) by (nonlinear_arith)
                    requires
                        w == mi / d,
                        d > 0,
                        mi >= 0,
                ;
            }
            if down >= 24 {
                proof {
                    if down > 24 {
                        lemma_pow2_strictly_increases(24, down as nat);
                    }
                    vstd::arithmetic::div_mod::lemma_small_mod(m as nat, d as nat);
                    vstd::arithmetic::div_mod::lemma_basic_div(mi, d);
                }
                (0, m != 0)
            } else {
                let power = rounding::two_to(down as u32);
                (m / power, m % power != 0)
            }
        }
    }

    /// The whole part, saturated at the ends of `i32`; 0 where this is not a number.
    pub fn to_i32(self) -> (r: i32)
        ensures
            r == truncated(self),
    {
        proof {
            reveal(truncated);
        }
        if self.not_a_number() {
            return 0;
        }
        let (whole, _) = self.whole_part();
        if self.is_negative() {
            if whole > 0x7fff_ffff {
                i32::MIN
            } else {
                -(whole as i32)
            }
        } else {
            if whole > 0x7fff_ffff {
                i32::MAX
            } else {
                whole as i32
            }
        }
    }

    /// The least integer not below this, saturated at the ends of `i32`; 0 where this is not a
    /// number.
    pub fn ceil_to_i32(self) -> (r: i32)
        ensures
            r == ceiling(self),
    {
        proof {
            reveal(ceiling);
        }
        if self.not_a_number() {
            return 0;
        }
        let (whole, fraction) = self.whole_part();
        proof {
            lemma_pow2_pos(149);
            lemma_ceiling(self);
        }
        if self.is_negative() {
            if whole > 0x7fff_ffff {
                i32::MIN
            } else {
                -(whole as i32)
            }
        } else {
            if whole >= 0x7fff_ffff {
                i32::MAX
            } else if fraction {
                whole as i32 + 1
            } else {
                whole as i32
            }
        }
    }

    /// `self`, or the bound that it lies beyond.
    pub fn clamp(self, low: Binary32, high: Binary32) -> (r: Binary32)
        ensures
            r == clamped(self, low, high),
    {
        proof {
            reveal(clamped);
        }
        if self.less_than(low) {
            low
        } else if high.less_than(self) {
            high
        } else {
            self
        }
    }
}

/// The ceiling, by the sign, from the whole part and whether there is a fraction.
proof fn lemma_ceiling(a: Binary32)
    ensures
        -((-a.value()) / (one_in_units() as int)) == (if a.negative() {
            -((a.size() / one_in_units()) as int)
        } else if a.size() % one_in_units() == 0 {
            (a.size() / one_in_units()) as int
        } else {
            (a.size() / one_in_units() + 1) as int
        }),
{
    lemma_pow2_pos(149);
    let unit = one_in_units() as int;
    let size = a.size() as int;
    let (w, rest) = (size / unit, size % unit);
    assert(size == w * unit + rest && 0 <= rest < unit) by (nonlinear_arith)
        requires
            unit > 0,
            w == size / unit,
            rest == size % unit,
    ;
    if !a.negative() {
        if rest == 0 {
            assert(-size == (-w) * unit) by (nonlinear_arith)
                requires
                    size == w * unit + rest,
                    rest == 0,
            ;
            vstd::arithmetic::div_mod::lemma_fundamental_div_mod_converse(-size, unit, -w, 0);
        } else {
            assert(-size == (-w - 1) * unit + (unit - rest)) by (nonlinear_arith)
                requires
                    size == w * unit + rest,
            ;
            vstd::arithmetic::div_mod::lemma_fundamental_div_mod_converse(-size, unit, -w - 1, unit - rest);
        }
    }
}

/// A multiple of a power of two with at most 24 digits is rounded to itself.
pub proof fn short_multiples_are_exact(negative: bool, n: nat, k: nat, q: nat)
    requires
        n < 0x100_0000,
        k <= 253,
        q > 0,
    ensures
        rounding::nearest_ratio((n * pow2(k)) * q, q) < INFINITY_BITS,
        with_sign(negative, rounding::nearest_ratio((n * pow2(k)) * q, q)).size() == n * pow2(k),
        with_sign(negative, rounding::nearest_ratio((n * pow2(k)) * q, q)).negative() == negative,
        with_sign(negative, rounding::nearest_ratio((n * pow2(k)) * q, q)).magnitude() < INFINITY_BITS,
    decreases k,
{
    if k == 0 || n >= 0x80_0000 {
        rounding::nearest_of_representable(n, k, q);
        let bits = k * 0x80_0000 + n;
        assert(rounding::packed(k, n) == bits);
        lemma_with_sign(negative, bits);
        let r = with_sign(negative, bits);
        if bits < 0x80_0000 {
            assert(k == 0);
        } else {
            assert(bits / 0x80_0000 == k + n / 0x80_0000 && bits % 0x80_0000 == n % 0x80_0000);
            assert(n / 0x80_0000 == 1);
        }
        assert(r.significand() == n && r.scale() == k);
    } else {
        lemma_pow2_unfold(k);
        let half = pow2((k - 1) as nat);
        assert(n * (2 * half) == (2 * n) * half) by (nonlinear_arith);
        short_multiples_are_exact(negative, 2 * n, (k - 1) as nat, q);
    }
}

/// An integer of at most 24 binary digits is kept as it is.
#[verifier::spinoff_prover]
pub proof fn short_integers_are_exact(v: int)
    requires
        -0x100_0000 <= v <= 0x100_0000,
    ensures
        !of_int(v).is_nan(),
        !of_int(v).is_infinite(),
        of_int(v).value() == v * one_in_units(),
        of_int(v).size() == absolute(v) * one_in_units(),
        of_int(v).negative() == (v < 0),
{
    reveal(of_int);
    let n = absolute(v);
    let unit = one_in_units();
    assert((n * unit) * 1 == n * unit) by (nonlinear_arith);
    if n < 0x100_0000 {
        short_multiples_are_exact(v < 0, n, 149, 1);
    } else {
        lemma_pow2_unfold(150);
        let next = pow2(150);
        assert(n * unit == 0x80_0000 * next) by (nonlinear_arith)
            requires
                n == 0x100_0000,
                next == 2 * unit,
        ;
        assert((0x80_0000 * next) * 1 == 0x80_0000 * next) by (nonlinear_arith);
        short_multiples_are_exact(v < 0, 0x80_0000, 150, 1);
    }
    lemma_with_sign(v < 0, rounding::nearest_ratio(n * unit, 1));
    assert((-n) * unit == -(n * unit)) by (nonlinear_arith);
}

/// Multiplying by one changes nothing.
#[verifier::spinoff_prover]
pub proof fn times_one_is_unchanged(a: Binary32, one: Binary32)
    requires
        !a.is_nan(),
        one == of_int(1),
    ensures
        product(a, one) == a,
{
    reveal(product);
    short_integers_are_exact(1);
    lemma_parts(a);
    lemma_pow2_pos(149);
    let unit = one_in_units();
    assert(1 * unit == unit);
    lemma_parts(one);
    if !a.is_infinite() {
        rounding::nearest_of_representable(a.significand(), a.scale(), unit);
        lemma_packed_parts(a);
    }
}

/// Adding a zero changes no number but a negative zero, which may lose its sign.
pub proof fn plus_zero_is_unchanged(a: Binary32, z: Binary32)
    requires
        !a.is_nan(),
        z.is_zero(),
        a.is_zero() ==> !a.negative(),
    ensures
        sum(a, z) == a,
{
    reveal(sum);
    lemma_parts(a);
    lemma_parts(z);
    if !a.is_infinite() && !a.is_zero() {
        let (n, k) = (a.significand(), a.scale());
        rounding::nearest_of_representable(n, k, 1);
        assert((n * pow2(k)) * 1 == n * pow2(k)) by (nonlinear_arith);
        lemma_packed_parts(a);
    }
}

/// Zero times a finite number is a zero.
pub proof fn times_zero_is_zero(z: Binary32, b: Binary32)
    requires
        z.is_zero(),
        b.magnitude() < INFINITY_BITS,
    ensures
        product(z, b).is_zero(),
        product(b, z).is_zero(),
{
    reveal(product);
    lemma_parts(z);
    lemma_parts(b);
    lemma_pow2_pos(149);
    let (unit, other) = (one_in_units(), b.size());
    rounding::nearest_of_representable(0, 0, unit);
    assert((0 * pow2(0)) * unit == 0 && 0 * other == 0 && other * 0 == 0) by (nonlinear_arith);
    lemma_with_sign(z.negative() != b.negative(), 0);
}

/// Significand and scale make up the magnitude bits.
proof fn lemma_packed_parts(a: Binary32)
    requires
        a.magnitude() < INFINITY_BITS,
    ensures
        rounding::packed(a.scale(), a.significand()) == a.magnitude(),
{
    let (k, n, bits) = (a.scale(), a.significand(), a.magnitude());
    if bits >= 0x80_0000 {
        assert(bits == (bits / 0x80_0000) * 0x80_0000 + bits % 0x80_0000);
    }
    assert(k * 0x80_0000 + n == bits);
}

/// A finite number other than zero, divided by itself, is one.
#[verifier::spinoff_prover]
pub proof fn over_itself_is_one(a: Binary32)
    requires
        0 < a.magnitude() < INFINITY_BITS,
    ensures
        quotient(a, a) == of_int(1),
{
    reveal(quotient);
    reveal(of_int);
    lemma_parts(a);
    lemma_pow2_pos(149);
    let (s, unit) = (a.size(), one_in_units());
    rounding::nearest_of_same_ratio(unit, 1, s);
    assert(1 * s == s && s * unit == unit * s && 1 * unit == unit) by (nonlinear_arith);
}

/// An integer of at most 24 binary digits comes back when its number is cut to an integer.
pub proof fn short_integers_come_back(v: int)
    requires
        -0x100_0000 <= v <= 0x100_0000,
    ensures
        truncated(of_int(v)) == v,
{
    reveal(truncated);
    short_integers_are_exact(v);
    lemma_pow2_pos(149);
    vstd::arithmetic::div_mod::lemma_div_by_multiple(absolute(v) as int, one_in_units() as int);
}

/// The quotient of a number that is not negative by a short integer is the number nearest to the
/// exact ratio.
pub proof fn short_quotients_are_nearest(a: Binary32, p: nat, v: int)
    requires
        !a.negative(),
        a.magnitude() < INFINITY_BITS,
        a.size() == p,
        0 < v <= 0x100_0000,
    ensures
        quotient(a, of_int(v)) == with_sign(false, rounding::nearest_ratio(p, v as nat)),
{
    reveal(quotient);
    short_integers_are_exact(v);
    let b = of_int(v);
    lemma_parts(a);
    lemma_parts(b);
    lemma_pow2_pos(149);
    let (vn, unit) = (v as nat, one_in_units());
    assert(vn * unit > 0) by (nonlinear_arith)
        requires
            vn > 0,
            unit > 0,
    ;
    rounding::nearest_of_same_ratio(p, vn, unit);
}

/// Negative integers become negative numbers, others do not.
pub proof fn integers_keep_their_sign(v: int)
    ensures
        of_int(v).negative() == (v < 0),
        !of_int(v).is_nan(),
{
    reveal(of_int);
    lemma_with_sign(v < 0, rounding::nearest_ratio(absolute(v) * one_in_units(), 1));
}

/// The sign of a quotient by a number other than zero and the infinities.
pub proof fn quotients_keep_the_sign(a: Binary32, b: Binary32)
    requires
        !a.is_nan(),
        0 < b.magnitude() < INFINITY_BITS,
    ensures
        quotient(a, b).negative() == (a.negative() != b.negative()),
        !quotient(a, b).is_nan(),
{
    reveal(quotient);
    let negative = a.negative() != b.negative();
    lemma_with_sign(negative, rounding::nearest_ratio(a.size() * one_in_units(), b.size()));
    lemma_with_sign(negative, INFINITY_BITS as nat);
}

/// A negative number has no positive ceiling.
pub proof fn negative_ceilings(a: Binary32)
    requires
        a.negative(),
    ensures
        ceiling(a) <= 0,
{
    reveal(ceiling);
    lemma_pow2_pos(149);
    if !a.is_nan() {
        let unit = one_in_units() as int;
        let size = a.size() as int;
        assert(size / unit >= 0) by (nonlinear_arith)
            requires
                size >= 0,
                unit > 0,
        ;
    }
}

/// The size of a finite number that is given by a binade and a significand of that binade.
pub(crate) proof fn lemma_packed_size(negative: bool, k: nat, n: nat)
    requires
        n <= 0x100_0000,
        k == 0 || n >= 0x80_0000,
        rounding::packed(k, n) < INFINITY_BITS,
    ensures
        with_sign(negative, rounding::packed(k, n)).size() == n * pow2(k),
{
    if n < 0x100_0000 {
        rounding::nearest_of_representable(n, k, 1);
        short_multiples_are_exact(negative, n, k, 1);
    } else {
        rounding::nearest_of_representable(0x80_0000, k + 1, 1);
        short_multiples_are_exact(negative, 0x80_0000, k + 1, 1);
        lemma_pow2_unfold(k + 1);
        assert(rounding::packed(k, n) == rounding::packed(k + 1, 0x80_0000));
        let a = pow2(k);
        assert(0x80_0000 * (2 * a) == n * a) by (nonlinear_arith)
            requires
                n == 0x100_0000,
        ;
    }
}

/// The sum of a number with itself has twice its value, unless that is too large.
pub proof fn sum_with_itself_is_twice(a: Binary32)
    requires
        a.magnitude() < INFINITY_BITS,
    ensures
        sum(a, a).negative() == a.negative(),
        !sum(a, a).is_nan(),
        !sum(a, a).is_infinite() ==> sum(a, a).value() == 2 * a.value(),
        a.size() < pow2(276) ==> !sum(a, a).is_infinite(),
{
    reveal(sum);
    lemma_parts(a);
    lemma_pow2_pos(a.scale());
    if !a.is_zero() {
        let (n, k) = (a.significand(), a.scale());
        let p = 2 * a.size();
        let c = pow2(k);
        lemma_pow2_unfold(k + 1);
        let (m, e) = if n < 0x80_0000 {
            (2 * n, k)
        } else {
            (n, k + 1)
        };
        assert((m * pow2(e)) * 1 == p) by (nonlinear_arith)
            requires
                p == 2 * (n * c),
                m == 2 * n && pow2(e) == c || m == n && pow2(e) == 2 * c,
        ;
        rounding::nearest_of_representable(m, e, 1);
        let bits = rounding::packed(e, m);
        lemma_with_sign(a.negative(), bits);
        if bits < INFINITY_BITS {
            lemma_packed_size(a.negative(), e, m);
        } else {
            assert(e >= 254);
            lemma_pow2_adds(23, 253);
            lemma2_to64();
            assert(n * c >= 0x80_0000 * c) by (nonlinear_arith)
                requires
                    n >= 0x80_0000,
            ;
        }
    }
}

/// The number nearest to twice as many units is the sum of the nearest number with itself.
proof fn lemma_doubled(negative: bool, n: nat)
    ensures
        with_sign(negative, rounding::nearest_ratio(2 * n, 1)) == ({
            let a = with_sign(negative, rounding::nearest_ratio(n, 1));
            sum(a, a)
        }),
{
    reveal(sum);
    let (k, m) = rounding::nearest_of_doubled(n);
    let bits = rounding::packed(k, m);
    let a = with_sign(negative, bits);
    lemma_with_sign(negative, bits);
    if bits < INFINITY_BITS {
        lemma_packed_size(negative, k, m);
        lemma_pow2_pos(k);
        lemma_parts(a);
        lemma_pow2_unfold(k + 1);
        lemma_pow2_unfold(k + 2);
        let c = pow2(k);
        let p = 2 * a.size();
        let (x, e) = if m < 0x80_0000 {
            (2 * m, k)
        } else if m < 0x100_0000 {
            (m, k + 1)
        } else {
            (0x80_0000nat, k + 2)
        };
        assert((x * pow2(e)) * 1 == p) by (nonlinear_arith)
            requires
                p == 2 * (m * c),
                x == 2 * m && pow2(e) == c || x == m && pow2(e) == 2 * c || m == 0x100_0000 && x == 0x80_0000
                    && pow2(e) == 2 * (2 * c),
        ;
        rounding::nearest_of_representable(x, e, 1);
        assert(m == 0 <==> p == 0) by (nonlinear_arith)
            requires
                p == 2 * (m * c),
                c > 0,
        ;
    }
}

/// The number nearest to an integer of `i32` is finite and whole, and zero only for zero.
#[verifier::spinoff_prover]
pub proof fn integers_are_whole(v: int) -> (whole: nat)
    requires
        -0x8000_0000 <= v <= 0x8000_0000,
    ensures
        of_int(v).magnitude() < INFINITY_BITS,
        of_int(v).size() == whole * one_in_units(),
        of_int(v).is_zero() <==> v == 0,
{
    let unit = one_in_units();
    lemma_pow2_pos(149);
    if -0x100_0000 <= v <= 0x100_0000 {
        short_integers_are_exact(v);
        lemma_parts(of_int(v));
        let whole = absolute(v);
        assert(whole == 0 <==> whole * unit == 0) by (nonlinear_arith)
            requires
                unit > 0,
        ;
        whole
    } else {
        reveal(of_int);
        lemma2_to64();
        let n = absolute(v) * unit;
        let (k, m) = rounding::nearest_of_doubled(n);
        lemma_pow2_adds(24, 149);
        lemma_pow2_adds(32, 149);
        assert(pow2(173) < n < pow2(181)) by (nonlinear_arith)
            requires
                n == absolute(v) * unit,
                0x100_0000 < absolute(v) < 0x1_0000_0000,
                pow2(173) == 0x100_0000 * unit,
                pow2(181) == 0x1_0000_0000 * unit,
                unit > 0,
        ;
        if k + 24 < 173 {
            lemma_pow2_strictly_increases(k + 24, 173);
        }
        if k + 23 > 181 {
            lemma_pow2_strictly_increases(181, k + 23);
        }
        assert(149 <= k <= 158);
        let bits = rounding::packed(k, m);
        lemma_with_sign(v < 0, bits);
        lemma_packed_size(v < 0, k, m);
        lemma_pow2_adds((k - 149) as nat, 149);
        let c = pow2((k - 149) as nat);
        assert(m * (c * unit) == (m * c) * unit) by (nonlinear_arith);
        m * c
    }
}

/// Twice an integer becomes twice the number.
pub proof fn doubled_integers(v: int)
    requires
        i32::MIN <= 2 * v <= i32::MAX,
    ensures
        of_int(2 * v) == sum(of_int(v), of_int(v)),
        of_int(2 * v).size() == 2 * of_int(v).size(),
        of_int(2 * v).negative() == of_int(v).negative(),
{
    reveal(of_int);
    let n = absolute(v) * one_in_units();
    assert(absolute(2 * v) * one_in_units() == 2 * n) by (nonlinear_arith)
        requires
            absolute(2 * v) == 2 * absolute(v),
            n == absolute(v) * one_in_units(),
    ;
    lemma_doubled(v < 0, n);
    let whole = integers_are_whole(v);
    integers_are_whole(2 * v);
    integers_keep_their_sign(v);
    integers_keep_their_sign(2 * v);
    sum_with_itself_is_twice(of_int(v));
}

/// A number times twice an integer is the product with the integer, added to itself, whatever the
/// number is.
pub proof fn times_a_doubled_integer(u: Binary32, v: int)
    requires
        i32::MIN <= 2 * v <= i32::MAX,
    ensures
        product(u, of_int(2 * v)) == sum(product(u, of_int(v)), product(u, of_int(v))),
{
    reveal(product);
    doubled_integers(v);
    integers_keep_their_sign(v);
    integers_keep_their_sign(2 * v);
    let whole = integers_are_whole(v);
    integers_are_whole(2 * v);
    let (w, x) = (of_int(v), product(u, of_int(v)));
    let negative = u.negative() != w.negative();
    if u.is_nan() || u.is_infinite() {
        reveal(sum);
        lemma_with_sign(negative, INFINITY_BITS as nat);
        if u.is_infinite() {
            lemma_parts(u);
        }
    } else {
        lemma_pow2_pos(149);
        let (s, unit) = (u.size(), one_in_units());
        let n = s * whole;
        assert(s * (whole * unit) == n * unit && s * (2 * (whole * unit)) == (2 * n) * unit) by (nonlinear_arith)
            requires
                n == s * whole,
        ;
        assert(1 * unit == unit);
        rounding::nearest_of_same_ratio(n, 1, unit);
        rounding::nearest_of_same_ratio(2 * n, 1, unit);
        lemma_doubled(negative, n);
    }
}

/// The order of two summands does not matter.
pub proof fn sums_commute(a: Binary32, b: Binary32)
    ensures
        sum(a, b) == sum(b, a),
{
    reveal(sum);
}

/// The order of two factors does not matter.
pub proof fn products_commute(a: Binary32, b: Binary32)
    ensures
        product(a, b) == product(b, a),
{
    reveal(product);
    let (x, y) = (a.size(), b.size());
    assert(x * y == y * x) by (nonlinear_arith);
}

/// A number times a number twice as large is the product added to itself, where the product is not
/// among the smallest numbers, which have fewer digits.
pub proof fn times_a_doubled_number(u: Binary32, z: Binary32)
    requires
        z.magnitude() < INFINITY_BITS,
        sum(z, z).magnitude() < INFINITY_BITS,
        0x80_0000 < product(u, z).magnitude() < INFINITY_BITS,
    ensures
        product(u, sum(z, z)) == sum(product(u, z), product(u, z)),
{
    reveal(product);
    sum_with_itself_is_twice(z);
    lemma_parts(z);
    lemma_parts(sum(z, z));
    lemma_pow2_pos(149);
    lemma2_to64();
    let unit = one_in_units();
    let negative = u.negative() != z.negative();
    assert(!u.is_nan() && !u.is_infinite()) by {
        lemma_with_sign(negative, INFINITY_BITS as nat);
    }
    let p = u.size() * z.size();
    let (us, zs) = (u.size(), z.size());
    assert(us * (2 * zs) == 2 * (us * zs)) by (nonlinear_arith);
    let (k, m) = rounding::nearest_is_half_a_place_off(p, unit);
    lemma_with_sign(negative, rounding::packed(k, m));
    let c = pow2(k);
    if p < unit * 0x80_0000 {
        assert(k == 0) by {
            if k > 0 {
                lemma_pow2_pos(k);
                lemma_pow2_adds(k, 23);
                assert(unit * (c * 0x80_0000) >= unit * 0x80_0000) by (nonlinear_arith)
                    requires
                        c >= 1,
                        unit > 0,
                ;
            }
        }
        assert(m <= 0x80_0000) by (nonlinear_arith)
            requires
                2 * (m * (unit * c)) <= 2 * p + unit * c,
                c == 1,
                p < unit * 0x80_0000,
                unit > 0,
        ;
    }
    if m < 0x100_0000 {
        rounding::nearest_of_representable(m, k, 1);
        rounding::nearest_of_representable(m, k + 1, 1);
        lemma_pow2_unfold(k + 1);
        let n = m * c;
        assert((m * (2 * c)) * 1 == 2 * n && n * 1 == n) by (nonlinear_arith)
            requires
                n == m * c,
        ;
        lemma_doubled(negative, n);
    } else {
        rounding::nearest_of_representable(0x80_0000, k + 1, 1);
        rounding::nearest_of_representable(0x80_0000, k + 2, 1);
        lemma_pow2_unfold(k + 2);
        let d = pow2(k + 1);
        let n = 0x80_0000 * d;
        assert((0x80_0000 * (2 * d)) * 1 == 2 * n && n * 1 == n) by (nonlinear_arith)
            requires
                n == 0x80_0000 * d,
        ;
        lemma_doubled(negative, n);
    }
}

/// What a number is cut to is within `i32`.
pub proof fn truncations_fit(a: Binary32)
    ensures
        i32::MIN <= truncated(a) <= i32::MAX,
{
    reveal(truncated);
}

} // verus!
