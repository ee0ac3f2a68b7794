use vstd::arithmetic::power2::*;
use vstd::prelude::*;

verus! {

/// The magnitude bits of infinity. Larger magnitudes are not numbers.
pub const INFINITY_BITS: u32 = 0x7f80_0000;

/// `p / q` lies in the binade whose numbers are spaced `2^k` apart: 24 bits are enough for
/// `p / q / 2^k`, and (unless `k` is already 0) 23 bits are not.
pub open spec fn in_binade(p: nat, q: nat, k: nat) -> bool {
    &&& p < q * pow2(k + 24)
    &&& k == 0 || q * pow2(k + 23) <= p
}

/// The integer nearest to a number that holds `h` whole halves, ties going to the even one.
/// `exact` says that the number is `h` halves and nothing more.
pub open spec fn half_even(h: nat, exact: bool) -> nat {
    if h % 2 == 0 || exact && (h / 2) % 2 == 0 {
        h / 2
    } else {
        h / 2 + 1
    }
}

/// The magnitude bits of `n * 2^k`, where `n` needs at most 24 bits (or is `2^24`), and 24 bits
/// exactly unless `k` is 0. What is too large becomes infinity.
pub open spec fn packed(k: nat, n: nat) -> nat {
    let bits = k * 0x80_0000 + n;
    if bits < INFINITY_BITS {
        bits
    } else {
        INFINITY_BITS as nat
    }
}

/// The magnitude bits of the single-precision number nearest to `p / q`, counted in units of
/// `2^-149`; of two that are equally near, the one with the even significand.
pub open spec fn nearest_ratio(p: nat, q: nat) -> nat {
    let k = choose|k: nat| in_binade(p, q, k);
    packed(k, half_even((2 * p) / (q * pow2(k)), (2 * p) % (q * pow2(k)) == 0))
}

/// The square root of `r` lies in the binade whose numbers are spaced `2^k` apart.
pub open spec fn root_in_binade(r: nat, k: nat) -> bool {
    &&& r < pow2(k + 24) * pow2(k + 24)
    &&& k == 0 || pow2(k + 23) * pow2(k + 23) <= r
}

/// `x` is the square root of `n`, rounded down.
pub open spec fn is_floor_root(n: nat, x: nat) -> bool {
    x * x <= n < (x + 1) * (x + 1)
}

/// The square root of `n`, rounded down.
pub open spec fn floor_root(n: nat) -> nat {
    choose|x: nat| is_floor_root(n, x)
}

/// The magnitude bits of the single-precision number nearest to the square root of `r`, counted
/// in units of `2^-149`; of two that are equally near, the one with the even significand.
pub open spec fn nearest_root(r: nat) -> nat {
    let k = choose|k: nat| root_in_binade(r, k);
    let spacing = pow2(k) * pow2(k);
    let h = floor_root((4 * r) / spacing);
    packed(k, half_even(h, h * h * spacing == 4 * r))
}

proof fn lemma_in_binade_unique(p: nat, q: nat, k1: nat, k2: nat)
    requires
        in_binade(p, q, k1),
        in_binade(p, q, k2),
    ensures
        k1 == k2,
{
    if k1 < k2 {
        lemma_spacing_grows(q, k1, k2);
    } else if k2 < k1 {
        lemma_spacing_grows(q, k2, k1);
    }
}

proof fn lemma_spacing_grows(q: nat, k1: nat, k2: nat)
    requires
        k1 < k2,
    ensures
        q * pow2(k1 + 24) <= q * pow2(k2 + 23),
{
    if k1 + 24 < k2 + 23 {
        lemma_pow2_strictly_increases(k1 + 24, (k2 + 23) as nat);
    }
    let a = pow2(k1 + 24);
    let b = pow2((k2 + 23) as nat);
    assert(q * a <= q * b) by (nonlinear_arith)
        requires
            a <= b,
    ;
}

proof fn lemma_root_in_binade_unique(r: nat, k1: nat, k2: nat)
    requires
        root_in_binade(r, k1),
        root_in_binade(r, k2),
    ensures
        k1 == k2,
{
    if k1 < k2 {
        lemma_root_spacing_grows(k1, k2);
    } else if k2 < k1 {
        lemma_root_spacing_grows(k2, k1);
    }
}

proof fn lemma_root_spacing_grows(k1: nat, k2: nat)
    requires
        k1 < k2,
    ensures
        pow2(k1 + 24) * pow2(k1 + 24) <= pow2(k2 + 23) * pow2(k2 + 23),
{
    if k1 + 24 < k2 + 23 {
        lemma_pow2_strictly_increases(k1 + 24, (k2 + 23) as nat);
    }
    let a = pow2(k1 + 24);
    let b = pow2((k2 + 23) as nat);
    assert(a * a <= b * b) by (nonlinear_arith)
        requires
            a <= b,
    ;
}

proof fn lemma_floor_root_unique(n: nat, x: nat, y: nat)
    requires
        is_floor_root(n, x),
        is_floor_root(n, y),
    ensures
        x == y,
{
    if x < y {
        assert((x + 1) * (x + 1) <= y * y) by (nonlinear_arith)
            requires
                x < y,
        ;
    } else if y < x {
        assert((y + 1) * (y + 1) <= x * x) by (nonlinear_arith)
            requires
                y < x,
        ;
    }
}

/// `p / q` is `m * 2^e` or, where something was cut off, lies between that and the next
/// multiple of `2^e`.
pub open spec fn approximates(m: nat, e: int, cut: bool, p: nat, q: nat) -> bool {
    let a = pow2(if e >= 0 { e as nat } else { 0 });
    let b = pow2(if e >= 0 { 0 } else { (-e) as nat });
    &&& m * (a * q) <= p * b < (m + 1) * (a * q)
    &&& cut <==> m * (a * q) != p * b
}

/// What the binade `2^k` leaves of `m * 2^e`: `h` whole halves of its spacing.
spec fn splits(m: nat, e: int, cut: bool, k: nat, h: nat, exact: bool) -> bool {
    let s = k - e;
    &&& s >= 1 ==> {
        &&& h == m / pow2((s - 1) as nat)
        &&& exact == (!cut && m % pow2((s - 1) as nat) == 0)
        &&& m < pow2((s + 24) as nat)
        &&& k > 0 ==> m >= pow2((s + 23) as nat)
    }
    &&& s < 1 ==> {
        &&& h == 2 * m * pow2((-s) as nat)
        &&& exact && !cut
        &&& m * pow2((-s) as nat) < pow2(24)
        &&& k > 0 ==> m * pow2((-s) as nat) >= pow2(23)
    }
}

/// Halving the spacing commutes with cutting off: the case in which `2^k` exceeds `2^e`.
proof fn lemma_halves_of_cut(m: nat, d: nat, u: nat, pb: nat, cut: bool)
    requires
        d > 0,
        u > 0,
        m * u <= pb < (m + 1) * u,
        cut <==> m * u != pb,
    ensures
        (m / d) * (d * u) <= pb < (m / d + 1) * (d * u),
        (m / d) * (d * u) == pb <==> !cut && m % d == 0,
{
    let h = m / d;
    let t = m % d;
    assert(m == d * h + t && t < d) by (nonlinear_arith)
        requires
            d > 0,
            h == m / d,
            t == m % d,
    ;
    assert(h * (d * u) + t * u == m * u) by (nonlinear_arith)
        requires
            m == d * h + t,
    ;
    assert((h + 1) * (d * u) == h * (d * u) + d * u) by (nonlinear_arith);
    assert((m + 1) * u == m * u + u) by (nonlinear_arith);
    assert(t * u + u <= d * u) by (nonlinear_arith)
        requires
            t < d,
    ;
    assert(t > 0 ==> t * u > 0) by (nonlinear_arith)
        requires
            u > 0,
    ;
    assert(t == 0 ==> t * u == 0) by (nonlinear_arith);
}

proof fn lemma_cancel(x: nat, y: nat, b: nat)
    requires
        b > 0,
    ensures
        x * b <= y * b <==> x <= y,
        x * b < y * b <==> x < y,
        x * b == y * b <==> x == y,
{
    assert(x * b <= y * b <==> x <= y) by (nonlinear_arith)
        requires
            b > 0,
    ;
    assert(y * b <= x * b <==> y <= x) by (nonlinear_arith)
        requires
            b > 0,
    ;
}

/// The quotient and whether there is a remainder, from the two bounds that fix them.
proof fn lemma_quotient(n: nat, d: nat, h: nat)
    requires
        d > 0,
        h * d <= n < (h + 1) * d,
    ensures
        n / d == h,
        n % d == 0 <==> h * d == n,
{
    let r = (n - h * d) as nat;
    assert(r < d) by (nonlinear_arith)
        requires
            r == n - h * d,
            n < (h + 1) * d,
    ;
    vstd::arithmetic::div_mod::lemma_fundamental_div_mod_converse(n as int, d as int, h as int, r as int);
}

#[verifier::spinoff_prover]
proof fn lemma_ratio(m: nat, e: int, cut: bool, p: nat, q: nat, k: nat, h: nat, exact: bool)
    requires
        q > 0,
        approximates(m, e, cut, p, q),
        splits(m, e, cut, k, h, exact),
    ensures
        nearest_ratio(p, q) == packed(k, half_even(h, exact)),
{
    let ea: nat = if e >= 0 { e as nat } else { 0 };
    let eb: nat = if e >= 0 { 0 } else { (-e) as nat };
    let a = pow2(ea);
    let b = pow2(eb);
    lemma_pow2_pos(ea);
    lemma_pow2_pos(eb);
    lemma_pow2_pos(k);
    let u = a * q;
    assert(u > 0) by (nonlinear_arith)
        requires
            a > 0,
            q > 0,
            u == a * q,
    ;
    let spacing = q * pow2(k);
    assert(spacing > 0) by (nonlinear_arith)
        requires
            q > 0,
            pow2(k) > 0,
            spacing == q * pow2(k),
    ;
    let s = k - e;
    if s >= 1 {
        let d = pow2((s - 1) as nat);
        lemma_pow2_pos((s - 1) as nat);
        lemma_halves_of_cut(m, d, u, p * b, cut);
        // 2^k * b == 2 * d * a
        lemma_pow2_adds(k, eb);
        lemma_pow2_adds((s - 1) as nat, ea);
        lemma_pow2_unfold((k + eb) as nat);
        assert(k + eb - 1 == s - 1 + ea);
        assert(pow2(k) * b == 2 * (d * a));
        let pk = pow2(k);
        assert(h * spacing * b == 2 * (h * (d * u))) by (nonlinear_arith)
            requires
                pk * b == 2 * (d * a),
                spacing == q * pk,
                u == a * q,
        ;
        assert((h + 1) * spacing * b == 2 * ((h + 1) * (d * u))) by (nonlinear_arith)
            requires
                pk * b == 2 * (d * a),
                spacing == q * pk,
                u == a * q,
        ;
        assert((2 * p) * b == 2 * (p * b)) by (nonlinear_arith);
        lemma_cancel(h * spacing, 2 * p, b);
        lemma_cancel(2 * p, (h + 1) * spacing, b);
        // binade bounds
        let top = pow2((s + 24) as nat);
        let kt = pow2((k + 24) as nat);
        lemma_pow2_adds((s + 24) as nat, ea);
        lemma_pow2_adds(k + 24, eb);
        assert(s + 24 + ea == k + 24 + eb);
        assert(top * a == kt * b);
        assert((m + 1) * u <= top * u) by (nonlinear_arith)
            requires
                m < top,
        ;
        assert(top * u == (q * kt) * b) by (nonlinear_arith)
            requires
                top * a == kt * b,
                u == a * q,
        ;
        lemma_cancel(p, q * kt, b);
        if k > 0 {
            let low = pow2((s + 23) as nat);
            let kl = pow2((k + 23) as nat);
            lemma_pow2_adds((s + 23) as nat, ea);
            lemma_pow2_adds(k + 23, eb);
            assert(s + 23 + ea == k + 23 + eb);
            assert(low * a == kl * b);
            assert(low * u <= m * u) by (nonlinear_arith)
                requires
                    low <= m,
            ;
            assert(low * u == (q * kl) * b) by (nonlinear_arith)
                requires
                    low * a == kl * b,
                    u == a * q,
            ;
            lemma_cancel(q * kl, p, b);
        }
    } else {
        let c = pow2((-s) as nat);
        assert(pow2(0) == 1) by {
            lemma_pow2(0);
            vstd::arithmetic::power::lemma_pow0(2);
        }
        lemma_pow2_adds(k, (-s) as nat);
        assert(k + (-s) as nat == ea);
        assert(pow2(k) * c == a);
        let pk = pow2(k);
        assert(p == m * (a * q));
        assert(h * spacing == 2 * p && 2 * p < (h + 1) * spacing) by (nonlinear_arith)
            requires
                h == 2 * m * c,
                spacing == q * pk,
                pk * c == a,
                p == m * (a * q),
                spacing > 0,
        ;
        let n = m * c;
        lemma_pow2_adds(k, 24);
        lemma_pow2_adds(k, 23);
        let p24 = pow2(24);
        let p23 = pow2(23);
        assert(p == (q * pk) * n) by (nonlinear_arith)
            requires
                p == m * (a * q),
                pk * c == a,
                n == m * c,
        ;
        assert((q * pk) * n < q * (pk * p24)) by (nonlinear_arith)
            requires
                n < p24,
                q * pk > 0,
        ;
        if k > 0 {
            assert((q * pk) * n >= q * (pk * p23)) by (nonlinear_arith)
                requires
                    n >= p23,
            ;
        }
    }
    lemma_quotient(2 * p, spacing, h);
    assert(in_binade(p, q, k));
    lemma_in_binade_unique(p, q, k, choose|k: nat| in_binade(p, q, k));
}

proof fn lemma_squares(x: nat, y: nat)
    ensures
        x <= y <==> x * x <= y * y,
        x < y <==> x * x < y * y,
        x == y <==> x * x == y * y,
{
    assert(x <= y ==> x * x <= y * y) by (nonlinear_arith);
    assert(y <= x ==> y * y <= x * x) by (nonlinear_arith);
    assert(x < y ==> x * x < y * y) by (nonlinear_arith);
    assert(y < x ==> y * y < x * x) by (nonlinear_arith);
}

/// The square root of `r` is `m * 2^e` or, where something was cut off, lies between that and the
/// next multiple of `2^e`.
pub open spec fn root_approximates(m: nat, e: nat, cut: bool, r: nat) -> bool {
    let a = pow2(e);
    &&& (m * a) * (m * a) <= r < ((m + 1) * a) * ((m + 1) * a)
    &&& cut <==> (m * a) * (m * a) != r
}

#[verifier::spinoff_prover]
proof fn lemma_root(m: nat, e: nat, cut: bool, r: nat, k: nat, h: nat, exact: bool)
    requires
        root_approximates(m, e, cut, r),
        splits(m, e as int, cut, k, h, exact),
        k > e,
    ensures
        nearest_root(r) == packed(k, half_even(h, exact)),
{
    let s = k - e;
    let a = pow2(e);
    let d = pow2((s - 1) as nat);
    let pk = pow2(k);
    lemma_pow2_pos(e);
    lemma_pow2_pos((s - 1) as nat);
    lemma_pow2_pos(k);
    lemma_pow2_adds((s - 1) as nat, e);
    lemma_pow2_unfold(k);
    assert(pk == 2 * (d * a));
    // Where the cut number m stands between its halves.
    let t = m % d;
    assert(m == d * h + t && t < d) by (nonlinear_arith)
        requires
            d > 0,
            h == m / d,
            t == m % d,
    ;
    let low = h * (d * a);
    let high = (h + 1) * (d * a);
    assert(low + t * a == m * a) by (nonlinear_arith)
        requires
            m == d * h + t,
            low == h * (d * a),
    ;
    assert((m + 1) * a <= high) by (nonlinear_arith)
        requires
            m == d * h + t,
            t < d,
            high == (h + 1) * (d * a),
    ;
    assert(t * a == 0 <==> t == 0) by (nonlinear_arith)
        requires
            a > 0,
    ;
    assert(t * a >= 0) by (nonlinear_arith);
    lemma_squares(low, m * a);
    lemma_squares((m + 1) * a, high);
    assert(low * low <= r < high * high);
    assert(low * low == r <==> exact);
    // The same in halves of the spacing.
    let spacing = pk * pk;
    assert(spacing > 0) by (nonlinear_arith)
        requires
            pk > 0,
            spacing == pk * pk,
    ;
    assert((h * h) * spacing == 4 * (low * low)) by (nonlinear_arith)
        requires
            pk == 2 * (d * a),
            low == h * (d * a),
            spacing == pk * pk,
    ;
    assert(((h + 1) * (h + 1)) * spacing == 4 * (high * high)) by (nonlinear_arith)
        requires
            pk == 2 * (d * a),
            high == (h + 1) * (d * a),
            spacing == pk * pk,
    ;
    let n = (4 * r) / spacing;
    vstd::arithmetic::div_mod::lemma_div_is_ordered(((h * h) * spacing) as int, (4 * r) as int, spacing as int);
    vstd::arithmetic::div_mod::lemma_div_by_multiple((h * h) as int, spacing as int);
    vstd::arithmetic::div_mod::lemma_div_by_multiple_is_strongly_ordered(
        (4 * r) as int,
        (((h + 1) * (h + 1)) * spacing) as int,
        ((h + 1) * (h + 1)) as int,
        spacing as int,
    );
    vstd::arithmetic::div_mod::lemma_div_by_multiple(((h + 1) * (h + 1)) as int, spacing as int);
    assert(is_floor_root(n, h));
    lemma_floor_root_unique(n, h, floor_root(n));
    // The binade.
    let top = pow2((s + 24) as nat);
    let kt = pow2(k + 24);
    lemma_pow2_adds((s + 24) as nat, e);
    assert(top * a == kt);
    assert((m + 1) * a <= kt) by (nonlinear_arith)
        requires
            m < top,
            top * a == kt,
    ;
    lemma_squares((m + 1) * a, kt);
    let bottom = pow2((s + 23) as nat);
    let kl = pow2(k + 23);
    lemma_pow2_adds((s + 23) as nat, e);
    assert(bottom * a == kl);
    assert(kl <= m * a) by (nonlinear_arith)
        requires
            bottom <= m,
            bottom * a == kl,
    ;
    lemma_squares(kl, m * a);
    assert(root_in_binade(r, k));
    lemma_root_in_binade_unique(r, k, choose|k: nat| root_in_binade(r, k));
}

/// The largest exponent of two that this module computes with.
const MAX_LENGTH: u32 = 120;

proof fn lemma_pow2_max_length()
    ensures
        pow2(MAX_LENGTH as nat) == 0x1_000000000000000_000000000000000,
{
    lemma2_to64();
    lemma2_to64_rest();
    lemma_pow2_adds(60, 60);
}

/// `2^n`.
pub(crate) fn two_to(n: u32) -> (r: u128)
    requires
        n <= 120,
    ensures
        r == pow2(n as nat),
{
    proof {
        lemma2_to64();
    }
    let mut r: u128 = 1;
    let mut i: u32 = 0;
    while i < n
        invariant
            i <= n <= 120,
            r == pow2(i as nat),
        decreases n - i,
    {
        proof {
            lemma_pow2_max_length();
            if i + 1 < 120 {
                lemma_pow2_strictly_increases((i + 1) as nat, 120);
            }
            lemma_pow2_unfold((i + 1) as nat);
        }
        r = r * 2;
        i = i + 1;
    }
    r
}

/// The number of binary digits of `m`.
fn bit_length(m: u128) -> (n: u32)
    requires
        m < pow2(120),
    ensures
        n <= 120,
        m < pow2(n as nat),
        n > 0 ==> pow2((n - 1) as nat) <= m,
        n == 0 ==> m == 0,
{
    proof {
        lemma2_to64();
        lemma_pow2_max_length();
    }
    let mut bound: u128 = 1;
    let mut n: u32 = 0;
    while bound <= m
        invariant
            m < pow2(120) == 0x1_000000000000000_000000000000000,
            n <= 120,
            bound == pow2(n as nat),
            n > 0 ==> pow2((n - 1) as nat) <= m,
        decreases 120 - n,
    {
        proof {
            if n == 120 {
                assert(false);
            }
            lemma_pow2_unfold((n + 1) as nat);
        }
        bound = bound * 2;
        n = n + 1;
    }
    proof {
        if n == 0 {
            assert(pow2(0) == 1);
        }
    }
    n
}

/// Finds the binade of `m * 2^e` and how many whole halves of its spacing `m * 2^e` holds.
#[verifier::spinoff_prover]
fn split(m: u128, e: i32, cut: bool) -> (r: (u32, u64, bool))
    requires
        m < pow2(120),
        -1000 <= e <= 1000,
        cut ==> m >= pow2(24),
    ensures
        splits(m as nat, e as int, cut, r.0 as nat, r.1 as nat, r.2),
        r.0 <= 1200,
        r.1 <= 0x200_0000,
        m >= pow2(24) ==> r.0 > e,
{
    proof {
        lemma2_to64();
    }
    if m == 0 {
        proof {
            if e < 0 {
                lemma_pow2_pos((-e - 1) as nat);
                lemma_pow2_pos((-e + 24) as nat);
                assert(0nat / pow2((-e - 1) as nat) == 0) by {
                    vstd::arithmetic::div_mod::lemma_div_basics_1(pow2((-e - 1) as nat) as int);
                }
                assert(0nat % pow2((-e - 1) as nat) == 0) by {
                    vstd::arithmetic::div_mod::lemma_small_mod(0, pow2((-e - 1) as nat));
                }
            } else {
                lemma_pow2_pos(e as nat);
                let c = pow2(e as nat);
                assert(0 * c == 0 && 2 * 0 * c == 0) by (nonlinear_arith);
            }
        }
        return (0, 0, true);
    }
    let length = bit_length(m);
    let k: u32 = if e + length as i32 > 24 {
        (e + length as i32 - 24) as u32
    } else {
        0
    };
    let s: i32 = k as i32 - e;
    proof {
        if m >= pow2(24) && length < 25 {
            if length < 24 {
                lemma_pow2_strictly_increases(length as nat, 24);
            }
            assert(false);
        }
    }
    if s < 1 {
        let c = two_to((-s) as u32);
        proof {
            // length - s <= 24, with equality unless k is 0
            let mi = m as int;
            let ci = c as int;
            let pl = pow2(length as nat) as int;
            lemma_pow2_adds(length as nat, (-s) as nat);
            if length - s < 24 {
                lemma_pow2_strictly_increases((length - s) as nat, 24);
            }
            lemma_pow2_pos((-s) as nat);
            assert(mi * ci < pl * ci) by (nonlinear_arith)
                requires
                    mi < pl,
                    ci > 0,
            ;
            if k > 0 {
                let low = pow2((length - 1) as nat) as int;
                lemma_pow2_adds((length - 1) as nat, (-s) as nat);
                assert(low * ci <= mi * ci) by (nonlinear_arith)
                    requires
                        low <= mi,
                        ci > 0,
                ;
            }
            assert(2 * mi * ci == 2 * (mi * ci)) by (nonlinear_arith);
        }
        let n: u128 = m * c;
        (k, (2 * n) as u64, true)
    } else {
        proof {
            // length <= s + 24, with equality unless k is 0
            if length < s + 24 {
                lemma_pow2_strictly_increases(length as nat, (s + 24) as nat);
            }
        }
        if s > 120 {
            proof {
                let d = pow2((s - 1) as nat);
                if s - 1 > 120 {
                    lemma_pow2_strictly_increases(120, (s - 1) as nat);
                }
                vstd::arithmetic::div_mod::lemma_small_mod(m as nat, d);
                vstd::arithmetic::div_mod::lemma_basic_div(m as int, d as int);
            }
            return (k, 0, false);
        }
        let d = two_to((s - 1) as u32);
        proof {
            lemma_pow2_pos((s - 1) as nat);
            // m < 2^(s + 24) == d * 2^25
            lemma_pow2_adds((s - 1) as nat, 25);
            let mi = m as int;
            let di = d as int;
            assert(mi / di < 0x200_0000) by (nonlinear_arith)
                requires
                    di > 0,
                    mi < di * 0x200_0000,
                    mi >= 0,
            ;
        }
        let h: u128 = m / d;
        let rest: u128 = m % d;
        (k, h as u64, !cut && rest == 0)
    }
}

/// The magnitude bits of a number that holds `h` whole halves of the spacing `2^k`.
fn pack(k: u32, h: u64, exact: bool) -> (r: u32)
    requires
        k <= 1200,
        h <= 0x200_0000,
    ensures
        r == packed(k as nat, half_even(h as nat, exact)),
{
    let n: u64 = if h % 2 == 0 || exact && (h / 2) % 2 == 0 {
        h / 2
    } else {
        h / 2 + 1
    };
    let bits: u64 = k as u64 * 0x80_0000 + n;
    if bits < INFINITY_BITS as u64 {
        bits as u32
    } else {
        INFINITY_BITS
    }
}

/// Rounds `p / q`, given as `m * 2^e` with what was cut off below that.
pub(crate) fn round_ratio(m: u128, e: i32, cut: bool, Ghost(p): Ghost<nat>, Ghost(q): Ghost<nat>) -> (r: u32)
    requires
        m < pow2(120),
        -1000 <= e <= 1000,
        cut ==> m >= pow2(24),
        q > 0,
        approximates(m as nat, e as int, cut, p, q),
    ensures
        r == nearest_ratio(p, q),
        r <= INFINITY_BITS,
{
    let (k, h, exact) = split(m, e, cut);
    proof {
        lemma_ratio(m as nat, e as int, cut, p, q, k as nat, h as nat, exact);
    }
    pack(k, h, exact)
}

/// Rounds the square root of `r`, given as `m * 2^e` with what was cut off below that.
pub(crate) fn round_root(m: u128, e: i32, cut: bool, Ghost(square): Ghost<nat>) -> (r: u32)
    requires
        pow2(24) <= m < pow2(120),
        0 <= e <= 1000,
        root_approximates(m as nat, e as nat, cut, square),
    ensures
        r == nearest_root(square),
        r <= INFINITY_BITS,
{
    let (k, h, exact) = split(m, e, cut);
    proof {
        lemma_root(m as nat, e as nat, cut, square, k as nat, h as nat, exact);
    }
    pack(k, h, exact)
}

proof fn lemma_some_binade_from(p: nat, q: nat, k: nat)
    requires
        q > 0,
        k == 0 || q * pow2(k + 23) <= p,
    ensures
        exists|j: nat| in_binade(p, q, j),
    decreases p - k,
{
    if p < q * pow2(k + 24) {
        assert(in_binade(p, q, k));
    } else {
        lemma_exceeds(k);
        let power = pow2(k + 24);
        assert(power <= q * power) by (nonlinear_arith)
            requires
                q > 0,
        ;
        assert(k + 1 + 23 == k + 24);
        lemma_some_binade_from(p, q, k + 1);
    }
}

proof fn lemma_exceeds(k: nat)
    ensures
        pow2(k + 24) > k,
    decreases k,
{
    if k == 0 {
        lemma_pow2_pos(24);
    } else {
        lemma_exceeds((k - 1) as nat);
        lemma_pow2_unfold(k + 24);
    }
}

/// The nearest number depends on the ratio only, not on how it is written.
#[verifier::spinoff_prover]
pub proof fn nearest_of_same_ratio(p: nat, q: nat, c: nat)
    requires
        q > 0,
        c > 0,
    ensures
        nearest_ratio(p * c, q * c) == nearest_ratio(p, q),
{
    lemma_some_binade_from(p, q, 0);
    let k = choose|k: nat| in_binade(p, q, k);
    let (top, low) = (pow2(k + 24), pow2(k + 23));
    assert((q * c) * top == (q * top) * c && (q * c) * low == (q * low) * c) by (nonlinear_arith);
    lemma_cancel(p, q * top, c);
    lemma_cancel(q * low, p, c);
    assert(in_binade(p * c, q * c, k));
    let (pc, qc) = (p * c, q * c);
    lemma_in_binade_unique(pc, qc, k, choose|k: nat| in_binade(pc, qc, k));
    lemma_pow2_pos(k);
    let spacing = q * pow2(k);
    assert(spacing > 0) by (nonlinear_arith)
        requires
            q > 0,
            pow2(k) > 0,
            spacing == q * pow2(k),
    ;
    let pk = pow2(k);
    assert((q * c) * pk == spacing * c) by (nonlinear_arith)
        requires
            spacing == q * pk,
    ;
    assert(2 * (p * c) == (2 * p) * c) by (nonlinear_arith);
    let h = (2 * p) / spacing;
    vstd::arithmetic::div_mod::lemma_fundamental_div_mod((2 * p) as int, spacing as int);
    vstd::arithmetic::div_mod::lemma_mod_bound((2 * p) as int, spacing as int);
    let rest = (2 * p) % spacing;
    assert(h * spacing <= 2 * p < (h + 1) * spacing) by (nonlinear_arith)
        requires
            2 * p == spacing * h + rest,
            0 <= rest < spacing,
    ;
    lemma_quotient(2 * p, spacing, h);
    assert((h * spacing) * c == h * (spacing * c) && ((h + 1) * spacing) * c == (h + 1) * (spacing * c))
        by (nonlinear_arith);
    lemma_cancel(h * spacing, 2 * p, c);
    lemma_cancel(2 * p, (h + 1) * spacing, c);
    assert(spacing * c > 0) by (nonlinear_arith)
        requires
            spacing > 0,
            c > 0,
    ;
    lemma_quotient((2 * p) * c, spacing * c, h);
}

/// Rounding changes nothing where the ratio is `n * 2^k` and that can be written as a
/// single-precision number.
pub proof fn nearest_of_representable(n: nat, k: nat, q: nat)
    requires
        q > 0,
        n < 0x100_0000,
        k == 0 || n >= 0x80_0000,
    ensures
        nearest_ratio((n * pow2(k)) * q, q) == packed(k, n),
{
    lemma2_to64();
    lemma_pow2_pos(k);
    let a = pow2(k);
    let p = (n * a) * q;
    assert(n * (a * q) == p * 1 && p * 1 < (n + 1) * (a * q)) by (nonlinear_arith)
        requires
            p == (n * a) * q,
            a > 0,
            q > 0,
    ;
    assert(approximates(n, k as int, false, p, q));
    assert(2 * n * pow2(0) == 2 * n);
    assert(n * pow2(0) == n);
    assert(splits(n, k as int, false, k, 2 * n, true));
    lemma_ratio(n, k as int, false, p, q, k, 2 * n, true);
    assert(half_even(2 * n, true) == n);
}

/// The binade and the significand of the number nearest to a whole number of units. Twice as many
/// units have the same significand in the next binade, unless they still are as many as single
/// units can count.
pub proof fn nearest_of_doubled(n: nat) -> (r: (nat, nat))
    ensures
        in_binade(n, 1, r.0),
        r.1 <= 0x100_0000,
        r.0 == 0 ==> r.1 == n,
        r.0 > 0 ==> r.1 >= 0x80_0000,
        nearest_ratio(n, 1) == packed(r.0, r.1),
        r.1 >= 0x80_0000 ==> nearest_ratio(2 * n, 1) == packed(r.0 + 1, r.1),
        r.1 < 0x80_0000 ==> nearest_ratio(2 * n, 1) == packed(0, 2 * n),
{
    lemma2_to64();
    lemma_some_binade_from(n, 1, 0);
    let k = choose|k: nat| in_binade(n, 1, k);
    let a = pow2(k);
    lemma_pow2_pos(k);
    lemma_pow2_unfold(k + 1);
    lemma_pow2_unfold(k + 24);
    lemma_pow2_unfold(k + 25);
    lemma_pow2_adds(k, 23);
    let (h, rest) = ((2 * n) / a, (2 * n) % a);
    let m = half_even(h, rest == 0);
    let twice = 2 * n;
    assert(1 * a == a && 1 * pow2(k + 1) == 2 * a);
    vstd::arithmetic::div_mod::lemma_fundamental_div_mod((2 * n) as int, a as int);
    assert(2 * n == h * a + rest && rest < a) by (nonlinear_arith)
        requires
            2 * n == a * h + rest,
            0 <= rest < a,
    ;
    assert(h < 0x200_0000) by (nonlinear_arith)
        requires
            h * a <= 2 * n,
            n < 0x100_0000 * a,
    ;
    if k > 0 {
        assert(h >= 0x100_0000) by (nonlinear_arith)
            requires
                0x80_0000 * a <= n,
                2 * n == h * a + rest,
                rest < a,
        ;
    } else {
        assert(h * a == h) by (nonlinear_arith)
            requires
                a == 1,
        ;
    }
    if m >= 0x80_0000 {
        assert(in_binade(twice, 1, k + 1));
        lemma_in_binade_unique(twice, 1, k + 1, choose|j: nat| in_binade(twice, 1, j));
        assert(2 * (2 * n) == h * (2 * a) + 2 * rest) by (nonlinear_arith)
            requires
                2 * n == h * a + rest,
        ;
        vstd::arithmetic::div_mod::lemma_fundamental_div_mod_converse(
            (2 * (2 * n)) as int,
            (2 * a) as int,
            h as int,
            (2 * rest) as int,
        );
    } else {
        nearest_of_representable(twice, 0, 1);
        assert((twice * 1) * 1 == twice);
    }
    (k, m)
}

/// The binade and the significand of the nearest number: no whole significand of that binade is
/// nearer, and of two that are equally near it is the even one. Twice the ratio has the same significand in the next binade, unless the ratio is below
/// the smallest number with a full significand.
#[verifier::spinoff_prover]
pub proof fn nearest_is_half_a_place_off(p: nat, q: nat) -> (r: (nat, nat))
    requires
        q > 0,
    ensures
        in_binade(p, q, r.0),
        r.1 <= 0x100_0000,
        r.0 > 0 ==> r.1 >= 0x80_0000,
        nearest_ratio(p, q) == packed(r.0, r.1),
        2 * p - q * pow2(r.0) <= 2 * (r.1 * (q * pow2(r.0))) <= 2 * p + q * pow2(r.0),
        2 * (r.1 * (q * pow2(r.0))) == 2 * p - q * pow2(r.0) ==> r.1 % 2 == 0,
        2 * (r.1 * (q * pow2(r.0))) == 2 * p + q * pow2(r.0) ==> r.1 % 2 == 0,
        q * 0x80_0000 <= p ==> r.1 >= 0x80_0000 && nearest_ratio(2 * p, q) == packed(r.0 + 1, r.1),
{
    lemma2_to64();
    lemma_some_binade_from(p, q, 0);
    let k = choose|k: nat| in_binade(p, q, k);
    let a = pow2(k);
    lemma_pow2_pos(k);
    lemma_pow2_unfold(k + 1);
    lemma_pow2_unfold(k + 24);
    lemma_pow2_unfold(k + 25);
    lemma_pow2_adds(k, 23);
    let d = q * a;
    assert(d > 0) by (nonlinear_arith)
        requires
            d == q * a,
            q > 0,
            a > 0,
    ;
    let (h, rest) = ((2 * p) / d, (2 * p) % d);
    let m = half_even(h, rest == 0);
    vstd::arithmetic::div_mod::lemma_fundamental_div_mod((2 * p) as int, d as int);
    let hd = h * d;
    assert(2 * p == hd + rest && rest < d) by (nonlinear_arith)
        requires
            2 * p == d * h + rest,
            0 <= rest < d,
            hd == h * d,
    ;
    assert(q * pow2(k + 24) == 0x100_0000 * d && q * pow2(k + 23) == 0x80_0000 * d) by (nonlinear_arith)
        requires
            d == q * a,
            pow2(k + 23) == a * 0x80_0000,
            pow2(k + 24) == 2 * pow2(k + 23),
    ;
    assert(h < 0x200_0000) by (nonlinear_arith)
        requires
            h * d <= 2 * p,
            p < 0x100_0000 * d,
    ;
    if q * 0x80_0000 <= p {
        assert(0x80_0000 * d <= p) by {
            if k == 0 {
                assert(d == q) by (nonlinear_arith)
                    requires
                        d == q * a,
                        a == 1,
                ;
            }
        }
        assert(h >= 0x100_0000) by (nonlinear_arith)
            requires
                0x80_0000 * d <= p,
                2 * p == h * d + rest,
                rest < d,
        ;
        let twice = 2 * p;
        assert(q * pow2(k + 25) == 2 * (q * pow2(k + 24)) && q * pow2(k + 1) == 2 * d) by (nonlinear_arith)
            requires
                pow2(k + 25) == 2 * pow2(k + 24),
                pow2(k + 1) == 2 * a,
                d == q * a,
        ;
        assert(in_binade(twice, q, k + 1));
        lemma_in_binade_unique(twice, q, k + 1, choose|j: nat| in_binade(twice, q, j));
        assert(2 * twice == h * (2 * d) + 2 * rest) by (nonlinear_arith)
            requires
                twice == h * d + rest,
        ;
        vstd::arithmetic::div_mod::lemma_fundamental_div_mod_converse(
            (2 * twice) as int,
            (2 * d) as int,
            h as int,
            (2 * rest) as int,
        );
    } else {
        assert(k == 0) by {
            if k > 0 {
                assert(q * pow2(k + 23) >= q * 0x80_0000) by (nonlinear_arith)
                    requires
                        pow2(k + 23) == a * 0x80_0000,
                        a >= 1,
                ;
            }
        }
    }
    if h % 2 == 0 {
        assert(2 * (m * d) == hd) by (nonlinear_arith)
            requires
                h == 2 * m,
                hd == h * d,
        ;
    } else if m == h / 2 {
        assert(2 * (m * d) == hd - d) by (nonlinear_arith)
            requires
                h == 2 * m + 1,
                hd == h * d,
        ;
    } else {
        assert(2 * (m * d) == hd + d) by (nonlinear_arith)
            requires
                h + 1 == 2 * m,
                hd == h * d,
        ;
    }
    (k, m)
}

proof fn lemma_some_root_binade_from(r: nat, k: nat)
    requires
        k == 0 || pow2(k + 23) * pow2(k + 23) <= r,
    ensures
        exists|j: nat| root_in_binade(r, j),
    decreases r - k,
{
    if r < pow2(k + 24) * pow2(k + 24) {
        assert(root_in_binade(r, k));
    } else {
        lemma_exceeds(k);
        let power = pow2(k + 24);
        assert(power <= power * power) by (nonlinear_arith)
            requires
                power >= 1,
        ;
        lemma_some_root_binade_from(r, k + 1);
    }
}

proof fn lemma_some_floor_root(n: nat) -> (x: nat)
    ensures
        is_floor_root(n, x),
    decreases n,
{
    if n == 0 {
        assert(0nat * 0nat == 0 && (0nat + 1) * (0nat + 1) == 1) by (nonlinear_arith);
        0
    } else {
        let y = lemma_some_floor_root((n - 1) as nat);
        let z = y + 1;
        assert((z + 1) * (z + 1) == z * z + 2 * z + 1) by (nonlinear_arith);
        if n < z * z {
            y
        } else {
            z
        }
    }
}

/// The binade and the significand of the number nearest to a square root: the root lies no more
/// than half a place away.
#[verifier::spinoff_prover]
pub proof fn nearest_root_is_half_a_place_off(r: nat) -> (s: (nat, nat))
    ensures
        root_in_binade(r, s.0),
        s.1 <= 0x100_0000,
        s.0 > 0 ==> s.1 >= 0x80_0000,
        nearest_root(r) == packed(s.0, s.1),
        4 * r <= ((2 * s.1 + 1) * pow2(s.0)) * ((2 * s.1 + 1) * pow2(s.0)),
        s.1 > 0 ==> ((2 * s.1 - 1) * pow2(s.0)) * ((2 * s.1 - 1) * pow2(s.0)) <= 4 * r,
{
    lemma2_to64();
    lemma_some_root_binade_from(r, 0);
    let k = choose|k: nat| root_in_binade(r, k);
    let a = pow2(k);
    lemma_pow2_pos(k);
    lemma_pow2_adds(k, 23);
    lemma_pow2_adds(k, 24);
    let spacing = a * a;
    assert(spacing > 0) by (nonlinear_arith)
        requires
            spacing == a * a,
            a > 0,
    ;
    let n = (4 * r) / spacing;
    let x = lemma_some_floor_root(n);
    let h = floor_root(n);
    assert(is_floor_root(n, h));
    let m = half_even(h, h * h * spacing == 4 * r);
    vstd::arithmetic::div_mod::lemma_fundamental_div_mod((4 * r) as int, spacing as int);
    let (hh, next) = (h * h, (h + 1) * (h + 1));
    assert(hh * spacing <= 4 * r && 4 * r < next * spacing) by (nonlinear_arith)
        requires
            hh <= n,
            n + 1 <= next,
            4 * r == spacing * n + (4 * r) % spacing,
            0 <= (4 * r) % spacing < spacing,
    ;
    // How large the halves are.
    let (top, low) = (pow2(k + 24), pow2(k + 23));
    assert(top * top == (0x100_0000 * 0x100_0000) * spacing && low * low == (0x80_0000 * 0x80_0000) * spacing)
        by (nonlinear_arith)
        requires
            top == a * 0x100_0000,
            low == a * 0x80_0000,
            spacing == a * a,
    ;
    assert(hh < 0x200_0000 * 0x200_0000) by (nonlinear_arith)
        requires
            hh * spacing <= 4 * r,
            r < (0x100_0000 * 0x100_0000) * spacing,
            spacing > 0,
    ;
    assert(h < 0x200_0000) by (nonlinear_arith)
        requires
            hh == h * h,
            hh < 0x200_0000 * 0x200_0000,
    ;
    if k > 0 {
        assert(next > 0x100_0000 * 0x100_0000) by (nonlinear_arith)
            requires
                4 * r < next * spacing,
                (0x80_0000 * 0x80_0000) * spacing <= r,
                spacing > 0,
        ;
        assert(h >= 0x100_0000) by (nonlinear_arith)
            requires
                next == (h + 1) * (h + 1),
                next > 0x100_0000 * 0x100_0000,
        ;
    }
    lemma_scaled_square(h, a);
    lemma_scaled_square(h + 1, a);
    if h % 2 == 0 {
        assert(h == 2 * m);
        if m > 0 {
            lemma_scaled_square((h - 1) as nat, a);
            assert((h - 1) * (h - 1) <= hh) by (nonlinear_arith)
                requires
                    hh == h * h,
                    h >= 1,
            ;
            let before = ((h - 1) * (h - 1)) as nat;
            assert(before * spacing <= hh * spacing) by (nonlinear_arith)
                requires
                    before <= hh,
            ;
        }
    } else if m == h / 2 {
        assert(h == 2 * m + 1);
        if m > 0 {
            lemma_scaled_square((h - 2) as nat, a);
            assert((h - 2) * (h - 2) <= hh) by (nonlinear_arith)
                requires
                    hh == h * h,
                    h >= 2,
            ;
            let before = ((h - 2) * (h - 2)) as nat;
            assert(before * spacing <= hh * spacing) by (nonlinear_arith)
                requires
                    before <= hh,
            ;
        }
    } else {
        assert(h + 1 == 2 * m);
        lemma_scaled_square(h + 2, a);
        assert(next <= (h + 2) * (h + 2)) by (nonlinear_arith)
            requires
                next == (h + 1) * (h + 1),
        ;
        let after = (h + 2) * (h + 2);
        assert(next * spacing <= after * spacing) by (nonlinear_arith)
            requires
                next <= after,
        ;
    }
    (k, m)
}

proof fn lemma_scaled_square(x: nat, a: nat)
    ensures
        (x * a) * (x * a) == (x * x) * (a * a),
{
    assert((x * a) * (x * a) == (x * x) * (a * a)) by (nonlinear_arith);
}

/// A ratio lies in one binade only.
pub proof fn binades_are_unique(p: nat, q: nat, a: nat, b: nat)
    requires
        in_binade(p, q, a),
        in_binade(p, q, b),
    ensures
        a == b,
{
    lemma_in_binade_unique(p, q, a, b);
}

} // verus!
