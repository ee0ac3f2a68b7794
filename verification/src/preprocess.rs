use crate::accuracy;
use crate::binary32;
use crate::binary32::Binary32;
use crate::tensor;
use crate::tensor::Tensor;
use vstd::prelude::*;

verus! {

/// The bytes hold an image of three bytes to a pixel whose rows start `step` bytes apart.
pub open spec fn holds_image(len: int, step: int, width: int, height: int) -> bool {
    (height - 1) * step + (width - 1) * 3 + 2 < len
}

/// The input of the network: one image, a plane to each channel in the order of the bytes of a
/// pixel, each byte as the number it is, from 0 to 255.
pub open spec fn planes(data: Seq<u8>, step: int, width: int, height: int) -> Map<
    (int, int, int, int),
    u32,
> {
    Map::new(
        |k: (int, int, int, int)| tensor::in_shape(k, 1, 3, height, width),
        |k: (int, int, int, int)|
            binary32::of_int(data[k.2 * step + k.3 * 3 + k.1] as int).bits,
    )
}

/// The factor that leads from a length of the scaled image back to one of the picture.
pub open spec fn scale_factor(original: int, target: int) -> Binary32 {
    binary32::quotient(binary32::of_int(original), binary32::of_int(target))
}

/// The input of the network, and the factors across and down, for a picture and its scaled image, of
/// which width and height are given.
pub open spec fn is_preprocessed(
    input: Map<(int, int, int, int), u32>,
    factors: (Binary32, Binary32),
    data: Seq<u8>,
    step: int,
    original: (int, int),
    target: (int, int),
) -> bool {
    &&& input == planes(data, step, target.0, target.1)
    &&& factors == (scale_factor(original.0, target.0), scale_factor(original.1, target.1))
}

proof fn lemma_pixel_in_bounds(len: int, step: int, width: int, height: int, y: int, x: int)
    requires
        holds_image(len, step, width, height),
        0 <= y < height,
        0 <= x < width,
        0 <= step,
    ensures
        0 <= y * step,
        y * step + x * 3 + 2 < len,
{
    assert(0 <= y * step <= (height - 1) * step) by (nonlinear_arith)
        requires
            0 <= y < height,
            0 <= step,
    ;
}

/// Turns an image that was already scaled to `target_w` by `target_h` into the input of the
/// network, and gives the factors that lead from its coordinates back to those of the picture,
/// which is `orig_w` by `orig_h`.
///
/// `data` holds the scaled image in rows of blue, green and red bytes that start `step` bytes
/// apart.
pub fn preprocess(
    orig_w: i32,
    orig_h: i32,
    data: &[u8],
    step: usize,
    target_w: i32,
    target_h: i32,
) -> (r: (Tensor, Binary32, Binary32))
    requires
        target_w > 0,
        target_h > 0,
        holds_image(data@.len() as int, step as int, target_w as int, target_h as int),
        12 * (target_h * target_w) <= isize::MAX,
    ensures
        is_preprocessed(
            r.0@,
            (r.1, r.2),
            data@,
            step as int,
            (orig_w as int, orig_h as int),
            (target_w as int, target_h as int),
        ),
{
    let scale_x = Binary32::from_i32(orig_w).over(Binary32::from_i32(target_w));
    let scale_y = Binary32::from_i32(orig_h).over(Binary32::from_i32(target_h));

    let len: usize = data.len();
    let height: usize = target_h as usize;
    let width: usize = target_w as usize;
    proof {
        let (h, w) = (height as int, width as int);
        assert(4 * (1 * 3 * h * w) == 12 * (h * w)) by (nonlinear_arith);
    }
    let mut array = Tensor::zeros(1, 3, height, width);
    let ghost all = planes(data@, step as int, width as int, height as int);
    let mut y: usize = 0;
    while y < height
        invariant
            y <= height,
            len == data@.len(),
            holds_image(data@.len() as int, step as int, width as int, height as int),
            all == planes(data@, step as int, width as int, height as int),
            array@.dom() == all.dom(),
            forall|k: (int, int, int, int)| all.dom().contains(k) && k.2 < y ==> #[trigger] array@[k] == all[k],
        decreases height - y,
    {
        let mut x: usize = 0;
        while x < width
            invariant
                y < height,
                x <= width,
                len == data@.len(),
                holds_image(data@.len() as int, step as int, width as int, height as int),
                all == planes(data@, step as int, width as int, height as int),
                array@.dom() == all.dom(),
                forall|k: (int, int, int, int)|
                    all.dom().contains(k) && (k.2 < y || k.2 == y && k.3 < x) ==> #[trigger] array@[k] == all[k],
            decreases width - x,
        {
            proof {
                lemma_pixel_in_bounds(
                    data@.len() as int,
                    step as int,
                    width as int,
                    height as int,
                    y as int,
                    x as int,
                );
            }
            let idx: usize = y * step + x * 3;
            array.set(0, 0, y, x, Binary32::from_i32(data[idx] as i32));
            array.set(0, 1, y, x, Binary32::from_i32(data[idx + 1] as i32));
            array.set(0, 2, y, x, Binary32::from_i32(data[idx + 2] as i32));
            x = x + 1;
        }
        y = y + 1;
    }
    assert(array@ =~= all);
    (array, scale_x, scale_y)
}

/// The network sees the bytes as they are: each number of its input is a whole one, from 0 to 255,
/// the byte of that channel at that pixel.
pub proof fn inputs_are_the_bytes(data: Seq<u8>, step: int, width: int, height: int, k: (int, int, int, int))
    requires
        tensor::in_shape(k, 1, 3, height, width),
    ensures
        planes(data, step, width, height).dom().contains(k),
        (Binary32 { bits: planes(data, step, width, height)[k] }).value() == data[k.2 * step + k.3 * 3 + k.1]
            * binary32::one_in_units(),
{
    binary32::short_integers_are_exact(data[k.2 * step + k.3 * 3 + k.1] as int);
}

/// A picture of the network's own size is not scaled: its factor is one.
pub proof fn same_size_scales_by_one(length: int)
    requires
        0 < length <= i32::MAX,
    ensures
        scale_factor(length, length) == binary32::of_int(1),
{
    let whole = binary32::integers_are_whole(length);
    binary32::over_itself_is_one(binary32::of_int(length));
}

/// A factor is the picture's length over the scaled image's, so that it leads from the last pixel of
/// the one to the last pixel of the other.
pub proof fn factors_lead_back_to_the_picture(original: int, target: int)
    requires
        -0x100_0000 <= original <= 0x100_0000,
        0 < target <= 0x100_0000,
    ensures
        accuracy::is_finite(scale_factor(original, target)),
        (0x80_0000 as real) * accuracy::size(
            accuracy::real_of(scale_factor(original, target)) * (target as real) - original as real,
        ) <= accuracy::size(original as real) + accuracy::negligible(),
{
    accuracy::integers_are_accurate(original);
    accuracy::integers_are_accurate(target);
    accuracy::underflow_is_negligible();
    let (a, b) = (binary32::of_int(original), binary32::of_int(target));
    accuracy::signs_are_kept(b);
    let (o, t) = (original as real, target as real);
    let q = o / t;
    assert(q * t == o && accuracy::size(q) * t == accuracy::size(o) && accuracy::size(q) <= accuracy::size(o))
        by (nonlinear_arith)
        requires
            q == o / t,
            t >= 1 as real,
            accuracy::size(q) == if q < 0 as real { -q } else { q },
            accuracy::size(o) == if o < 0 as real { -o } else { o },
    ;
    accuracy::quotients_are_accurate(a, b);
    let f = accuracy::real_of(scale_factor(original, target));
    let (gap, e) = (f - q, accuracy::underflow());
    accuracy::roundoff_of(accuracy::size(q));
    accuracy::sizes_multiply(gap, t);
    let (gs, qs) = (accuracy::size(gap), accuracy::size(q));
    assert(gap * t == f * t - o) by (nonlinear_arith)
        requires
            gap == f - q,
            q * t == o,
    ;
    assert((0x100_0000 as real) * (gs * t) <= qs * t + (0x100_0000 as real) * (e * t) && e * t <= e * (
    0x100_0000 as real)) by (nonlinear_arith)
        requires
            (0x100_0000 as real) * gs <= qs + (0x100_0000 as real) * e,
            0 as real <= t,
            t <= 0x100_0000 as real,
            e >= 0 as real,
    ;
}

/// What comes of a picture: an input with one number to each channel of each pixel and no other, each
/// the byte of that channel at that pixel; and factors that times the scaled image's width and height
/// give the picture's.
pub proof fn pictures_become_planes_and_factors(
    input: Map<(int, int, int, int), u32>,
    factors: (Binary32, Binary32),
    data: Seq<u8>,
    step: int,
    original: (int, int),
    target: (int, int),
)
    requires
        is_preprocessed(input, factors, data, step, original, target),
        -0x100_0000 <= original.0 <= 0x100_0000,
        -0x100_0000 <= original.1 <= 0x100_0000,
        0 < target.0 <= 0x100_0000,
        0 < target.1 <= 0x100_0000,
    ensures
        forall|channel: int, y: int, x: int|
            #![trigger input[(0, channel, y, x)]]
            0 <= channel < 3 && 0 <= y < target.1 && 0 <= x < target.0 ==> input.dom().contains((0, channel, y, x))
                && accuracy::real_of(Binary32 { bits: input[(0, channel, y, x)] }) == data[y * step + 3 * x
                + channel] as real,
        forall|k: (int, int, int, int)| #[trigger] input.dom().contains(k) ==> k.0 == 0 && 0 <= k.1 < 3 && 0 <= k.2
            < target.1 && 0 <= k.3 < target.0,
        (0x80_0000 as real) * accuracy::size(
            accuracy::real_of(factors.0) * (target.0 as real) - original.0 as real,
        ) <= accuracy::size(original.0 as real) + accuracy::negligible(),
        (0x80_0000 as real) * accuracy::size(
            accuracy::real_of(factors.1) * (target.1 as real) - original.1 as real,
        ) <= accuracy::size(original.1 as real) + accuracy::negligible(),
{
    factors_lead_back_to_the_picture(original.0, target.0);
    factors_lead_back_to_the_picture(original.1, target.1);
    assert forall|channel: int, y: int, x: int|
        #![trigger input[(0, channel, y, x)]]
        0 <= channel < 3 && 0 <= y < target.1 && 0 <= x < target.0 implies input.dom().contains((0, channel, y, x))
        && accuracy::real_of(Binary32 { bits: input[(0, channel, y, x)] }) == data[y * step + 3 * x
        + channel] as real by {
        let byte = data[y * step + x * 3 + channel];
        accuracy::integers_are_accurate(byte as int);
        assert(input[(0, channel, y, x)] == binary32::of_int(byte as int).bits);
        assert(Binary32 { bits: input[(0, channel, y, x)] } == binary32::of_int(byte as int));
    }
}

} // verus!
