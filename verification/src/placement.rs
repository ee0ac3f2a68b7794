use crate::accuracy;
use crate::binary32;
use crate::binary32::Binary32;
use crate::decode;
use crate::rounding;
use vstd::arithmetic::power2::*;
use vstd::prelude::*;

verus! {

/// The weight of an offset is the number nearest to 0.1, off by less than a part in `2^25`.
proof fn lemma_weight()
    ensures
        accuracy::is_finite(decode::center_variance()),
        accuracy::real_of(decode::center_variance()) * (0x800_0000 as real) == 13421773 as real,
{
    let w = decode::center_variance();
    lemma2_to64();
    assert(w.scale() == 122 && w.significand() == 13421773);
    accuracy::constants_are(w, 27);
}

/// The errors of an offset's two products, in real numbers.
proof fn lemma_shift(o: real, w: real, z: real, t: real, s: real)
    requires
        w * (0x800_0000 as real) == 13421773 as real,
        accuracy::size(z) <= 0x10_0000 as real,
        accuracy::size(t - o * w) <= accuracy::size(o * w) * accuracy::roundoff() + accuracy::underflow(),
        accuracy::size(s - t * z) <= accuracy::size(t * z) * accuracy::roundoff() + accuracy::underflow(),
    ensures
        (0x40_0000 as real) * accuracy::size(s - (o * z) / (10 as real)) <= accuracy::size(o * z) / (10 as real) + (
        0x1000_0000_0000 as real) * accuracy::underflow(),
{
    let e = accuracy::underflow();
    let (oz, ow, tz) = (o * z, o * w, t * z);
    let d = t - ow;
    let dz = d * z;
    let owz = ow * z;
    assert(tz == owz + dz) by (nonlinear_arith)
        requires
            tz == t * z,
            dz == d * z,
            owz == ow * z,
            d == t - ow,
    ;
    assert((0x800_0000 as real) * owz == (13421773 as real) * oz) by (nonlinear_arith)
        requires
            owz == ow * z,
            ow == o * w,
            oz == o * z,
            w * (0x800_0000 as real) == 13421773 as real,
    ;
    // The first rounding, carried through the second product.
    accuracy::sizes_multiply(d, z);
    accuracy::sizes_multiply(ow, z);
    accuracy::roundoff_of(accuracy::size(ow));
    let (ds, zs, os) = (accuracy::size(d), accuracy::size(z), accuracy::size(ow));
    let c = accuracy::size(ow) * accuracy::roundoff();
    assert(ds * zs <= (c + e) * zs) by (nonlinear_arith)
        requires
            ds <= c + e,
            zs >= 0 as real,
    ;
    assert((0x100_0000 as real) * (c * zs) == os * zs) by (nonlinear_arith)
        requires
            (0x100_0000 as real) * c == os,
    ;
    accuracy::underflow_is_negligible();
    assert((c + e) * zs == c * zs + e * zs && e * zs <= e * (0x10_0000 as real)) by (nonlinear_arith)
        requires
            zs <= 0x10_0000 as real,
            e >= 0 as real,
    ;
    assert((0x100_0000 as real) * accuracy::size(dz) <= accuracy::size(owz) + (0x1000_0000_0000 as real) * e);
    // The second rounding.
    accuracy::roundoff_of(accuracy::size(tz));
    assert((0x800_0000 as real) * accuracy::size(owz) == (13421773 as real) * accuracy::size(oz));
    let f = oz / (10 as real);
    assert((10 as real) * f == oz);
}

/// Where an offset puts a coordinate: at the center of the prior box, and from there a tenth of the
/// offset times the size of the box. This is what comes out for all numbers of moderate size, up to
/// a part in two million.
#[verifier::spinoff_prover]
pub proof fn offsets_count_a_tenth_of_the_prior(center: Binary32, size: Binary32, offset: Binary32)
    requires
        accuracy::is_moderate(center),
        accuracy::is_moderate(size),
        accuracy::is_moderate(offset),
    ensures
        accuracy::is_finite(decode::placed(center, size, offset)),
        ({
            let c = accuracy::real_of(center);
            let shift = (accuracy::real_of(offset) * accuracy::real_of(size)) / (10 as real);
            (0x20_0000 as real) * accuracy::size(accuracy::real_of(decode::placed(center, size, offset)) - (c + shift))
                <= accuracy::size(c) + accuracy::size(shift) + accuracy::negligible()
        }),
{
    let weight = decode::center_variance();
    let first = binary32::product(offset, weight);
    let shift = binary32::product(first, size);
    let (o, w, z, c) = (
        accuracy::real_of(offset),
        accuracy::real_of(weight),
        accuracy::real_of(size),
        accuracy::real_of(center),
    );
    lemma_weight();
    accuracy::underflow_is_negligible();
    accuracy::sizes_multiply(o, w);
    accuracy::products_grow(accuracy::size(o), accuracy::size(w), 0x10_0000 as real, 1 as real);
    accuracy::products_are_accurate(offset, weight);
    let t = accuracy::real_of(first);
    accuracy::roundoff_of(accuracy::size(o * w));
    assert(accuracy::size(t) <= 0x20_0000 as real);
    accuracy::sizes_multiply(t, z);
    accuracy::products_grow(accuracy::size(t), accuracy::size(z), 0x20_0000 as real, 0x10_0000 as real);
    accuracy::products_are_accurate(first, size);
    let s = accuracy::real_of(shift);
    accuracy::roundoff_of(accuracy::size(t * z));
    assert(accuracy::size(s) <= 0x400_0000_0000 as real);
    lemma_shift(o, w, z, t, s);
    accuracy::sums_are_accurate(center, shift);
    accuracy::roundoff_of(accuracy::size(c + s));
    let f = (o * z) / (10 as real);
    assert(accuracy::size(f) == accuracy::size(o * z) / (10 as real));
}

/// The shift that an offset makes is the same from every center.
pub proof fn shifts_do_not_depend_on_the_center(center: Binary32, size: Binary32, offset: Binary32)
    requires
        center.is_zero() ==> !center.negative(),
    ensures
        decode::placed(center, size, offset) == binary32::sum(
            center,
            decode::placed(Binary32 { bits: 0 }, size, offset),
        ),
{
    let zero = Binary32 { bits: 0 };
    let shift = binary32::product(binary32::product(offset, decode::center_variance()), size);
    reveal(binary32::sum);
    binary32::lemma_parts(zero);
    if !center.is_nan() {
        binary32::lemma_parts(center);
    }
    if !shift.is_nan() {
        binary32::lemma_parts(shift);
        if shift.is_zero() {
            binary32::lemma_with_sign(false, 0);
            assert(binary32::sum(zero, shift) == zero);
        } else {
            lemma_from_zero(shift);
        }
    }
}

/// A prior box twice as large shifts a coordinate exactly twice as far, unless the shift is among the
/// smallest numbers.
pub proof fn larger_priors_shift_farther(size: Binary32, offset: Binary32)
    requires
        accuracy::is_finite(size),
        accuracy::is_finite(binary32::sum(size, size)),
        0x80_0000 < decode::placed(Binary32 { bits: 0 }, size, offset).magnitude() < rounding::INFINITY_BITS,
    ensures
        decode::placed(Binary32 { bits: 0 }, binary32::sum(size, size), offset) == binary32::sum(
            decode::placed(Binary32 { bits: 0 }, size, offset),
            decode::placed(Binary32 { bits: 0 }, size, offset),
        ),
{
    let zero = Binary32 { bits: 0 };
    let first = binary32::product(offset, decode::center_variance());
    let shift = binary32::product(first, size);
    lemma_from_zero(shift);
    binary32::times_a_doubled_number(first, size);
    binary32::sum_with_itself_is_twice(shift);
    binary32::lemma_parts(shift);
    binary32::lemma_parts(binary32::sum(shift, shift));
    lemma_from_zero(binary32::sum(shift, shift));
}

proof fn lemma_from_zero(shift: Binary32)
    ensures
        !shift.is_zero() && !shift.is_nan() ==> binary32::sum(Binary32 { bits: 0 }, shift) == shift,
        shift.is_zero() ==> binary32::sum(Binary32 { bits: 0 }, shift).is_zero(),
        shift.is_nan() ==> binary32::sum(Binary32 { bits: 0 }, shift).is_nan(),
        shift.is_infinite() ==> binary32::sum(Binary32 { bits: 0 }, shift).is_infinite(),
{
    let zero = Binary32 { bits: 0 };
    binary32::lemma_parts(zero);
    if !shift.is_nan() && !shift.is_zero() {
        binary32::plus_zero_is_unchanged(shift, zero);
        binary32::sums_commute(shift, zero);
    } else {
        reveal(binary32::sum);
        if !shift.is_nan() {
            binary32::lemma_parts(shift);
        }
    }
}

/// Carrying a fraction of the input over into pixels.
#[verifier::spinoff_prover]
proof fn lemma_pixels(d: Binary32, exact: real, reach: real, input: int)
    requires
        accuracy::is_finite(d),
        accuracy::size(exact) <= reach,
        reach <= 0x8000_0000_0000 as real,
        (0x10_0000 as real) * accuracy::size(accuracy::real_of(d) - exact) <= reach,
        -0x10_0000 <= input <= 0x10_0000,
    ensures
        accuracy::is_finite(binary32::product(d, binary32::of_int(input))),
        (0x8_0000 as real) * accuracy::size(
            accuracy::real_of(binary32::product(d, binary32::of_int(input))) - exact * (input as real),
        ) <= accuracy::size(input as real) * reach + accuracy::negligible(),
{
    let w = input as real;
    accuracy::integers_are_accurate(input);
    accuracy::underflow_is_negligible();
    let x = accuracy::real_of(d);
    accuracy::sizes_multiply(x, w);
    accuracy::products_grow(accuracy::size(x), accuracy::size(w), 2 as real * reach, accuracy::size(w));
    accuracy::products_grow(2 as real * reach, accuracy::size(w), 0x1_0000_0000_0000 as real, 0x10_0000 as real);
    accuracy::products_are_accurate(d, binary32::of_int(input));
    let gap = x - exact;
    accuracy::sizes_multiply(gap, w);
    accuracy::products_grow(
        (0x10_0000 as real) * accuracy::size(gap),
        accuracy::size(w),
        reach,
        accuracy::size(w),
    );
    let (xw, ew, gs, ws) = (x * w, exact * w, accuracy::size(gap), accuracy::size(w));
    assert(gap * w == xw - ew) by (nonlinear_arith)
        requires
            gap == x - exact,
            xw == x * w,
            ew == exact * w,
    ;
    assert(((0x10_0000 as real) * gs) * ws == (0x10_0000 as real) * (gs * ws)) by (nonlinear_arith);
    assert((2 as real * reach) * ws == 2 as real * (reach * ws)) by (nonlinear_arith);
    assert(reach * ws == ws * reach) by (nonlinear_arith);
    accuracy::roundoff_of(accuracy::size(xw));
}

/// The real number with these bits.
pub open spec fn real_at(bits: u32) -> real {
    accuracy::real_of(Binary32 { bits })
}

/// How far an offset shifts a coordinate, as a fraction of the input: a tenth of the offset, times
/// the size of the prior box.
pub open spec fn true_shift(size: u32, offset: u32) -> real {
    (real_at(offset) * real_at(size)) / (10 as real)
}

/// Half the length of a face that is `growth` times as long as its prior box.
pub open spec fn true_half(size: u32, growth: Binary32) -> real {
    (real_at(size) * accuracy::real_of(growth)) / (2 as real)
}

/// A pixel coordinate is what a fraction of the input comes to, up to a part in half a million of
/// the lengths that go into it.
pub open spec fn near_pixel(x: Binary32, fraction: real, lengths: real, input: int) -> bool {
    &&& accuracy::is_finite(x)
    &&& (0x8_0000 as real) * accuracy::size(accuracy::real_of(x) - fraction * (input as real)) <= accuracy::size(
        input as real,
    ) * (lengths + accuracy::negligible()) + accuracy::negligible()
}

proof fn lemma_landmark(center: u32, size: u32, offset: u32, input: int)
    requires
        accuracy::is_moderate(Binary32 { bits: center }),
        accuracy::is_moderate(Binary32 { bits: size }),
        accuracy::is_moderate(Binary32 { bits: offset }),
        -0x10_0000 <= input <= 0x10_0000,
    ensures
        near_pixel(
            binary32::product(
                decode::placed(Binary32 { bits: center }, Binary32 { bits: size }, Binary32 { bits: offset }),
                binary32::of_int(input),
            ),
            real_at(center) + true_shift(size, offset),
            accuracy::size(real_at(center)) + accuracy::size(true_shift(size, offset)),
            input,
        ),
{
    let (c, z, o) = (Binary32 { bits: center }, Binary32 { bits: size }, Binary32 { bits: offset });
    offsets_count_a_tenth_of_the_prior(c, z, o);
    lemma_shift_bound(size, offset);
    lemma_pixels(
        decode::placed(c, z, o),
        real_at(center) + true_shift(size, offset),
        accuracy::size(real_at(center)) + accuracy::size(true_shift(size, offset)) + accuracy::negligible(),
        input,
    );
}

proof fn lemma_shift_bound(size: u32, offset: u32)
    requires
        accuracy::is_moderate(Binary32 { bits: size }),
        accuracy::is_moderate(Binary32 { bits: offset }),
    ensures
        accuracy::size(true_shift(size, offset)) <= 0x100_0000_0000 as real,
        accuracy::negligible() > 0 as real,
        accuracy::negligible() <= 1 as real,
{
    accuracy::sizes_multiply(real_at(offset), real_at(size));
    accuracy::products_grow(
        accuracy::size(real_at(offset)),
        accuracy::size(real_at(size)),
        0x10_0000 as real,
        0x10_0000 as real,
    );
}

/// Half the length of a face, as it is computed.
proof fn lemma_half_length(size: u32, growth: Binary32)
    requires
        accuracy::is_moderate(Binary32 { bits: size }),
        accuracy::is_moderate(growth),
    ensures
        ({
            let half = binary32::quotient(binary32::product(Binary32 { bits: size }, growth), decode::two());
            &&& accuracy::is_finite(half)
            &&& (0x20_0000 as real) * accuracy::size(accuracy::real_of(half) - true_half(size, growth))
                <= accuracy::size(true_half(size, growth)) + (0x1000_0000_0000 as real) * accuracy::underflow()
        }),
        accuracy::size(true_half(size, growth)) <= 0x100_0000_0000 as real,
{
    let z = Binary32 { bits: size };
    let two = decode::two();
    lemma2_to64();
    assert(two.scale() == 127 && two.significand() == 0x80_0000);
    accuracy::constants_are(two, 22);
    binary32::lemma_parts(two);
    let (t, c) = (accuracy::real_of(two), pow2(22) as real);
    assert(t == 2 as real) by (nonlinear_arith)
        requires
            t * c == 0x80_0000 as real,
            c == 0x40_0000 as real,
    ;
    accuracy::underflow_is_negligible();
    let (a, b) = (accuracy::real_of(z), accuracy::real_of(growth));
    accuracy::sizes_multiply(a, b);
    accuracy::products_grow(accuracy::size(a), accuracy::size(b), 0x10_0000 as real, 0x10_0000 as real);
    accuracy::products_are_accurate(z, growth);
    accuracy::roundoff_of(accuracy::size(a * b));
    let l = binary32::product(z, growth);
    accuracy::quotients_are_accurate(l, two);
    let x = accuracy::real_of(l);
    accuracy::roundoff_of(accuracy::size(x / (2 as real)));
}

/// The errors of an edge, in real numbers.
proof fn lemma_edge_error(c: real, f: real, half: real, m: real, h: real, edge: real, n: real, small: real)
    requires
        (0x20_0000 as real) * accuracy::size(m - (c + f)) <= accuracy::size(c) + accuracy::size(f) + n,
        (0x20_0000 as real) * accuracy::size(h - half) <= accuracy::size(half) + small,
        0 as real <= (16 as real) * small <= n,
        (0x100_0000 as real) * accuracy::size(edge - (m + h)) <= accuracy::size(m + h),
    ensures
        (0x10_0000 as real) * accuracy::size(edge - (c + f + half)) <= accuracy::size(c) + accuracy::size(f)
            + accuracy::size(half) + n,
{
    let (a, b, g) = (accuracy::size(m - (c + f)), accuracy::size(h - half), accuracy::size(edge - (m + h)));
    let all = accuracy::size(c) + accuracy::size(f) + accuracy::size(half);
    assert(accuracy::size(edge - (c + f + half)) <= a + b + g);
    assert(accuracy::size(m + h) <= all + a + b) by {
        assert(accuracy::size(c + f + half) <= all);
        assert(accuracy::size(m + h) <= accuracy::size(c + f + half) + a + b);
    }
}

/// Both edges of a face along one side of the input.
#[verifier::spinoff_prover]
proof fn lemma_edges(center: u32, size: u32, offset: u32, growth: Binary32, input: int)
    requires
        accuracy::is_moderate(Binary32 { bits: center }),
        accuracy::is_moderate(Binary32 { bits: size }),
        accuracy::is_moderate(Binary32 { bits: offset }),
        accuracy::is_moderate(growth),
        -0x10_0000 <= input <= 0x10_0000,
    ensures
        ({
            let edges = decode::edges(
                decode::placed(Binary32 { bits: center }, Binary32 { bits: size }, Binary32 { bits: offset }),
                binary32::product(Binary32 { bits: size }, growth),
                input,
            );
            let middle = real_at(center) + true_shift(size, offset);
            let half = true_half(size, growth);
            let lengths = accuracy::size(real_at(center)) + accuracy::size(true_shift(size, offset))
                + accuracy::size(half);
            &&& near_pixel(edges.0, middle - half, lengths, input)
            &&& near_pixel(edges.1, middle + half, lengths, input)
        }),
{
    let (c, z, o) = (Binary32 { bits: center }, Binary32 { bits: size }, Binary32 { bits: offset });
    offsets_count_a_tenth_of_the_prior(c, z, o);
    lemma_shift_bound(size, offset);
    lemma_half_length(size, growth);
    accuracy::underflow_is_negligible();
    let m = decode::placed(c, z, o);
    let h = binary32::quotient(binary32::product(z, growth), decode::two());
    let (mr, hr) = (accuracy::real_of(m), accuracy::real_of(h));
    accuracy::differences_are_accurate(m, h);
    accuracy::sums_are_accurate(m, h);
    accuracy::roundoff_of(accuracy::size(mr - hr));
    accuracy::roundoff_of(accuracy::size(mr + hr));
    let middle = real_at(center) + true_shift(size, offset);
    let half = true_half(size, growth);
    let lengths = accuracy::size(real_at(center)) + accuracy::size(true_shift(size, offset)) + accuracy::size(half)
        + accuracy::negligible();
    let (cr, f, n, small) = (
        real_at(center),
        true_shift(size, offset),
        accuracy::negligible(),
        (0x1000_0000_0000 as real) * accuracy::underflow(),
    );
    assert(accuracy::size(mr - hr) <= accuracy::large() && accuracy::size(mr + hr) <= accuracy::large());
    lemma_edge_error(cr, f, -half, mr, -hr, accuracy::real_of(binary32::difference(m, h)), n, small);
    lemma_edge_error(cr, f, half, mr, hr, accuracy::real_of(binary32::sum(m, h)), n, small);
    lemma_pixels(binary32::difference(m, h), middle - half, lengths, input);
    lemma_pixels(binary32::sum(m, h), middle + half, lengths, input);
}

/// The numbers of a row that say where a face is are of moderate size.
pub open spec fn is_moderate_row(loc: Seq<u32>, prior: Seq<u32>, growth: (Binary32, Binary32)) -> bool {
    &&& forall|c: int| 0 <= c < 14 ==> accuracy::is_moderate(Binary32 { bits: #[trigger] loc[c] })
    &&& forall|c: int| 0 <= c < 4 ==> accuracy::is_moderate(Binary32 { bits: #[trigger] prior[c] })
    &&& accuracy::is_moderate(growth.0)
    &&& accuracy::is_moderate(growth.1)
}

/// An edge of a face lies half its length before (`side` is -1) or behind (1) its middle, which the
/// first offset of that direction shifts from the center of the prior box.
pub open spec fn is_edge(
    x: Binary32,
    side: real,
    center: u32,
    size: u32,
    offset: u32,
    growth: Binary32,
    input: int,
) -> bool {
    near_pixel(
        x,
        real_at(center) + true_shift(size, offset) + side * true_half(size, growth),
        accuracy::size(real_at(center)) + accuracy::size(true_shift(size, offset)) + accuracy::size(
            true_half(size, growth),
        ),
        input,
    )
}

/// A landmark lies where its own offset shifts it from the center of the prior box.
pub open spec fn is_landmark(x: Binary32, center: u32, size: u32, offset: u32, input: int) -> bool {
    near_pixel(
        x,
        real_at(center) + true_shift(size, offset),
        accuracy::size(real_at(center)) + accuracy::size(true_shift(size, offset)),
        input,
    )
}

/// Each detection lies where its row of the network's output says: the middle of its box and each of
/// its landmarks a tenth of an offset times the prior box's size from the prior box's center, and its
/// box as many times as large as the prior box as the growth says; all of it times the input's size.
/// Its score is that of the row.
pub proof fn detections_lie_where_the_output_says(
    detections: Seq<decode::Detection>,
    loc: Seq<Seq<u32>>,
    conf: Seq<Seq<u32>>,
    iou: Seq<Seq<u32>>,
    priors: Seq<Seq<u32>>,
    growths: Seq<(Binary32, Binary32)>,
    input_w: int,
    input_h: int,
    j: int,
)
    requires
        decode::are_detections_of(detections, loc, conf, iou, priors, growths, input_w, input_h),
        0 <= j < detections.len(),
        is_moderate_row(
            loc[decode::found_rows(conf, iou, priors.len())[j]],
            priors[decode::found_rows(conf, iou, priors.len())[j]],
            growths[j],
        ),
        -0x10_0000 <= input_w <= 0x10_0000,
        -0x10_0000 <= input_h <= 0x10_0000,
    ensures
        ({
            let i = decode::found_rows(conf, iou, priors.len())[j];
            let (data, l, p, g) = (detections[j].data@, loc[i], priors[i], growths[j]);
            &&& detections[j].score == decode::row_score(conf, iou, i)
            &&& is_edge(data[0], -(1 as real), p[0], p[2], l[0], g.0, input_w)
            &&& is_edge(data[1], -(1 as real), p[1], p[3], l[1], g.1, input_h)
            &&& is_edge(data[2], 1 as real, p[0], p[2], l[0], g.0, input_w)
            &&& is_edge(data[3], 1 as real, p[1], p[3], l[1], g.1, input_h)
            &&& forall|k: int|
                0 <= k < 5 ==> is_landmark(#[trigger] data[4 + 2 * k], p[0], p[2], l[4 + 2 * k], input_w)
            &&& forall|k: int|
                0 <= k < 5 ==> is_landmark(#[trigger] data[5 + 2 * k], p[1], p[3], l[5 + 2 * k], input_h)
        }),
{
    let i = decode::found_rows(conf, iou, priors.len())[j];
    let (data, l, p, g) = (detections[j].data@, loc[i], priors[i], growths[j]);
    assert(detections[j].score == decode::row_score(conf, iou, i));
    assert(data == decode::decoded(l, p, g, input_w, input_h));
    assert(accuracy::is_moderate(Binary32 { bits: p[0] }) && accuracy::is_moderate(Binary32 { bits: p[1] })
        && accuracy::is_moderate(Binary32 { bits: p[2] }) && accuracy::is_moderate(Binary32 { bits: p[3] })
        && accuracy::is_moderate(Binary32 { bits: l[0] }) && accuracy::is_moderate(Binary32 { bits: l[1] }));
    lemma_edges(p[0], p[2], l[0], g.0, input_w);
    lemma_edges(p[1], p[3], l[1], g.1, input_h);
    lemma_sides(true_half(p[2], g.0));
    lemma_sides(true_half(p[3], g.1));
    assert forall|k: int| 0 <= k < 5 implies is_landmark(
        #[trigger] data[4 + 2 * k],
        p[0],
        p[2],
        l[4 + 2 * k],
        input_w,
    ) by {
        assert(accuracy::is_moderate(Binary32 { bits: l[4 + 2 * k] }));
        lemma_landmark(p[0], p[2], l[4 + 2 * k], input_w);
    }
    assert forall|k: int| 0 <= k < 5 implies is_landmark(
        #[trigger] data[5 + 2 * k],
        p[1],
        p[3],
        l[5 + 2 * k],
        input_h,
    ) by {
        assert(accuracy::is_moderate(Binary32 { bits: l[5 + 2 * k] }));
        lemma_landmark(p[1], p[3], l[5 + 2 * k], input_h);
    }
}

proof fn lemma_sides(half: real)
    ensures
        (1 as real) * half == half,
        (-(1 as real)) * half == -half,
{
    assert((1 as real) * half == half && (-(1 as real)) * half == -half) by (nonlinear_arith);
}

/// What the network says of a size counts a fifth, as the logarithm of the growth.
pub proof fn sizes_count_a_fifth(said: u32)
    requires
        accuracy::is_moderate(Binary32 { bits: said }),
    ensures
        accuracy::is_finite(decode::log_growth(said)),
        (0x40_0000 as real) * accuracy::size(
            accuracy::real_of(decode::log_growth(said)) - real_at(said) / (5 as real),
        ) <= accuracy::size(real_at(said)) / (5 as real) + accuracy::negligible(),
{
    let w = decode::size_variance();
    lemma2_to64();
    assert(w.scale() == 123 && w.significand() == 13421773);
    accuracy::constants_are(w, 26);
    accuracy::underflow_is_negligible();
    let (x, y, c) = (real_at(said), accuracy::real_of(w), pow2(26) as real);
    assert(y * (0x400_0000 as real) == 13421773 as real);
    accuracy::sizes_multiply(x, y);
    accuracy::products_grow(accuracy::size(x), accuracy::size(y), 0x10_0000 as real, 1 as real);
    accuracy::products_are_accurate(Binary32 { bits: said }, w);
    let xy = x * y;
    accuracy::roundoff_of(accuracy::size(xy));
    assert((0x400_0000 as real) * xy == (13421773 as real) * x) by (nonlinear_arith)
        requires
            xy == x * y,
            y * (0x400_0000 as real) == 13421773 as real,
    ;
}

/// A real number brought between 0 and 1.
pub open spec fn share(x: real) -> real {
    if x < 0 as real {
        0 as real
    } else if x > 1 as real {
        1 as real
    } else {
        x
    }
}

/// The square of a row's score is its class score times its overlap score, the latter brought between
/// 0 and 1, up to a part in a million. Where that product is negative the score is not a number.
#[verifier::spinoff_prover]
pub proof fn scores_are_geometric_means(conf: Seq<Seq<u32>>, iou: Seq<Seq<u32>>, i: int)
    requires
        accuracy::is_moderate(Binary32 { bits: conf[i][1] }),
        accuracy::is_moderate(Binary32 { bits: iou[i][0] }),
    ensures
        ({
            let s = decode::row_score(conf, iou, i);
            let x = accuracy::real_of(s);
            let exact = real_at(conf[i][1]) * share(real_at(iou[i][0]));
            &&& exact >= 0 as real ==> accuracy::is_finite(s) && x >= 0 as real && (0x10_0000 as real)
                * accuracy::size(x * x - exact) <= exact + accuracy::negligible()
            &&& exact < -accuracy::negligible() ==> s.is_nan()
        }),
{
    let (cls, said) = (Binary32 { bits: conf[i][1] }, Binary32 { bits: iou[i][0] });
    let (zero, one) = (decode::zero(), decode::one());
    lemma2_to64();
    binary32::lemma_parts(zero);
    assert(accuracy::real_of(zero) == 0 as real) by {
        accuracy::constants_are(zero, 149);
        lemma_pow2_pos(149);
        let (x, c) = (accuracy::real_of(zero), pow2(149) as real);
        assert(x == 0 as real) by (nonlinear_arith)
            requires
                x * c == 0 as real,
                c > 0 as real,
        ;
    }
    assert(one.scale() == 126 && one.significand() == 0x80_0000);
    accuracy::constants_are(one, 23);
    let (t, c) = (accuracy::real_of(one), pow2(23) as real);
    assert(t == 1 as real) by (nonlinear_arith)
        requires
            t * c == 0x80_0000 as real,
            c == 0x80_0000 as real,
    ;
    accuracy::clamping_stops_at_the_ends(said, zero, one);
    let overlap = binary32::clamped(said, zero, one);
    let (a, b) = (accuracy::real_of(cls), accuracy::real_of(overlap));
    assert(b == share(real_at(iou[i][0])));
    accuracy::underflow_is_negligible();
    accuracy::sizes_multiply(a, b);
    accuracy::products_grow(accuracy::size(a), accuracy::size(b), 0x10_0000 as real, 1 as real);
    accuracy::products_are_accurate(cls, overlap);
    let p = binary32::product(cls, overlap);
    let (exact, pr) = (a * b, accuracy::real_of(p));
    accuracy::roundoff_of(accuracy::size(exact));
    let s = binary32::square_root(p);
    if exact >= 0 as real {
        assert(pr >= 0 as real) by {
            lemma_product_sign(cls, overlap);
        }
        accuracy::roots_are_accurate(p);
    } else if exact < -accuracy::negligible() {
        assert(pr < 0 as real);
        reveal(binary32::square_root);
        lemma_negative(p);
    }
}

/// The sign of a product that is not zero.
proof fn lemma_product_sign(a: Binary32, b: Binary32)
    requires
        accuracy::is_finite(a),
        accuracy::is_finite(b),
        accuracy::is_finite(binary32::product(a, b)),
        accuracy::real_of(a) * accuracy::real_of(b) >= 0 as real,
    ensures
        accuracy::real_of(binary32::product(a, b)) >= 0 as real,
{
    accuracy::products_are_accurate(a, b);
    accuracy::products_keep_the_sign(a, b);
}

proof fn lemma_negative(p: Binary32)
    requires
        accuracy::is_finite(p),
        accuracy::real_of(p) < 0 as real,
    ensures
        p.negative(),
        !p.is_zero(),
{
    accuracy::signs_are_kept(p);
}

/// A row counts as found from a score of 0.15 on, and where its score is not a number.
pub proof fn rows_count_from_fifteen_hundredths(conf: Seq<Seq<u32>>, iou: Seq<Seq<u32>>, i: int)
    ensures
        decode::row_score(conf, iou, i).is_nan() ==> decode::found(conf, iou, i),
        accuracy::is_finite(decode::row_score(conf, iou, i)) ==> (decode::found(conf, iou, i) <==> (20 as real)
            * accuracy::real_of(decode::row_score(conf, iou, i)) >= 3 as real),
{
    let s = decode::row_score(conf, iou, i);
    if s.is_nan() {
        reveal(binary32::less);
    } else if accuracy::is_finite(s) {
        lemma2_to64();
        let least = decode::least_score();
        let before = Binary32 { bits: 0x3e19_9999 };
        assert(least.scale() == 123 && least.significand() == 10066330);
        assert(before.scale() == 123 && before.significand() == 10066329);
        accuracy::constants_are(least, 26);
        accuracy::constants_are(before, 26);
        accuracy::comparisons_are_exact(s, least);
        accuracy::signs_are_kept(s);
        assert(accuracy::real_of(least) * (0x400_0000 as real) == 10066330 as real);
        assert(accuracy::real_of(before) * (0x400_0000 as real) == 10066329 as real);
        if !s.negative() && s.magnitude() < least.magnitude() {
            if s.magnitude() < before.magnitude() {
                binary32::lemma_size_increases(s, before);
            } else {
                assert(s.bits == before.bits);
            }
            accuracy::comparisons_are_exact(before, s);
            reveal(binary32::less);
        } else if !s.negative() {
            if s.magnitude() > least.magnitude() {
                binary32::lemma_size_increases(least, s);
            } else {
                assert(s.bits == least.bits);
            }
            reveal(binary32::less);
        }
    }
}

/// The number nearest to one tenth.
pub open spec fn one_tenth() -> Binary32 {
    binary32::with_sign(false, rounding::nearest_ratio(binary32::one_in_units(), 10))
}

/// The weight of an offset is the number nearest to one tenth.
proof fn lemma_one_tenth()
    ensures
        decode::center_variance() == one_tenth(),
{
    lemma2_to64();
    let unit = pow2(149);
    let (k, m) = rounding::nearest_is_half_a_place_off(unit, 10);
    lemma_pow2_adds(122, 27);
    let c = pow2(122);
    lemma_pow2_pos(122);
    assert(unit == 0x800_0000 * c);
    lemma_pow2_adds(122, 23);
    lemma_pow2_adds(122, 24);
    assert(rounding::in_binade(unit, 10, 122));
    rounding::binades_are_unique(unit, 10, k, 122);
    assert(m == 13421773) by (nonlinear_arith)
        requires
            2 * (0x800_0000 * c) - 10 * c <= 2 * (m * (10 * c)),
            2 * (m * (10 * c)) <= 2 * (0x800_0000 * c) + 10 * c,
            c > 0,
    ;
    assert(rounding::packed(122, 13421773) == 0x3dcc_cccd);
}

/// Whatever the numbers are, each step of placing a coordinate is rounded on its own, in this order:
/// the offset by the number nearest to one tenth, that by the prior box's size, and what this gives
/// is added to the center.
pub proof fn coordinates_are_rounded_step_by_step(center: Binary32, size: Binary32, offset: Binary32)
    ensures
        ({
            let weighed = binary32::product(offset, one_tenth());
            let shift = binary32::product(weighed, size);
            decode::placed(center, size, offset) == binary32::sum(center, shift)
        }),
{
    lemma_one_tenth();
}

/// A box without length has both edges where a point in its middle would be, and a box turned around
/// has its edges exchanged, whatever the numbers are.
pub proof fn edges_lie_around_the_middle(middle: Binary32, length: Binary32, input: int)
    requires
        middle.is_zero() ==> !middle.negative(),
    ensures
        !middle.is_nan() && length.is_zero() ==> decode::edges(middle, length, input).0 == binary32::product(
            middle,
            binary32::of_int(input),
        ) && decode::edges(middle, length, input).1 == binary32::product(middle, binary32::of_int(input)),
        !length.is_nan() && !length.is_zero() ==> decode::edges(middle, binary32::negation(length), input).0
            == decode::edges(middle, length, input).1,
{
    let two = decode::two();
    let half = binary32::quotient(length, two);
    reveal(binary32::negation);
    reveal(binary32::difference);
    reveal(binary32::quotient);
    lemma2_to64();
    assert(two.scale() == 127 && two.significand() == 0x80_0000);
    binary32::lemma_parts(two);
    let other = binary32::negation(length);
    binary32::lemma_with_sign(!length.negative(), 0);
    if length.is_zero() {
        binary32::lemma_parts(length);
        lemma_no_half(length);
        let less = binary32::negation(half);
        if !middle.is_nan() {
            binary32::plus_zero_is_unchanged(middle, half);
            binary32::plus_zero_is_unchanged(middle, less);
        }
    } else if !length.is_nan() {
        assert(other.magnitude() == length.magnitude() && other.negative() != length.negative());
        assert(other.size() == length.size());
        let p = length.size() * binary32::one_in_units();
        accuracy::rounded_magnitudes(p, two.size());
        assert(binary32::quotient(other, two) == binary32::negation(half));
        assert(binary32::negation(binary32::negation(half)) == half);
    }
}

proof fn lemma_no_half(length: Binary32)
    requires
        length.is_zero(),
    ensures
        binary32::quotient(length, decode::two()).is_zero(),
        binary32::negation(binary32::quotient(length, decode::two())).is_zero(),
{
    reveal(binary32::quotient);
    reveal(binary32::negation);
    let two = decode::two();
    lemma2_to64();
    assert(two.scale() == 127 && two.significand() == 0x80_0000);
    binary32::lemma_parts(two);
    binary32::lemma_parts(length);
    let q = two.size();
    rounding::nearest_of_representable(0, 0, q);
    assert((0 * pow2(0)) * q == 0 && 0 * binary32::one_in_units() == 0) by (nonlinear_arith);
    binary32::lemma_with_sign(length.negative() != two.negative(), 0);
    binary32::lemma_with_sign(length.negative() == two.negative(), 0);
}

/// The logarithms of the growths are a fifth of what the network says of the sizes, across and down,
/// row by row.
pub proof fn growths_come_from_the_sizes(
    logs: Seq<(Binary32, Binary32)>,
    loc: Seq<Seq<u32>>,
    conf: Seq<Seq<u32>>,
    iou: Seq<Seq<u32>>,
    n: nat,
    j: int,
)
    requires
        decode::are_log_growths(logs, loc, conf, iou, n),
        0 <= j < logs.len(),
        accuracy::is_moderate(Binary32 { bits: loc[decode::found_rows(conf, iou, n)[j]][2] }),
        accuracy::is_moderate(Binary32 { bits: loc[decode::found_rows(conf, iou, n)[j]][3] }),
    ensures
        logs.len() == decode::found_rows(conf, iou, n).len(),
        ({
            let row = loc[decode::found_rows(conf, iou, n)[j]];
            &&& accuracy::is_finite(logs[j].0) && accuracy::is_finite(logs[j].1)
            &&& (0x40_0000 as real) * accuracy::size(
                (5 as real) * accuracy::real_of(logs[j].0) - real_at(row[2]),
            ) <= accuracy::size(real_at(row[2])) + (5 as real) * accuracy::negligible()
            &&& (0x40_0000 as real) * accuracy::size(
                (5 as real) * accuracy::real_of(logs[j].1) - real_at(row[3]),
            ) <= accuracy::size(real_at(row[3])) + (5 as real) * accuracy::negligible()
        }),
{
    let row = loc[decode::found_rows(conf, iou, n)[j]];
    assert(logs[j] == (decode::log_growth(row[2]), decode::log_growth(row[3])));
    sizes_count_a_fifth(row[2]);
    sizes_count_a_fifth(row[3]);
}

} // verus!
