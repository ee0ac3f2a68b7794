use crate::binary32;
use crate::binary32::Binary32;
use crate::rounding;
use crate::selection;
use crate::tensor::Matrix;
use vstd::prelude::*;

verus! {

/// The bits of 0.1, what an offset counts for.
pub const CENTER_VARIANCE: u32 = 0x3dcc_cccd;

/// The bits of 0.2, what the logarithm of a size counts for.
pub const SIZE_VARIANCE: u32 = 0x3e4c_cccd;

/// The bits of 0.15, the score below which nothing counts as found.
pub const LEAST_SCORE: u32 = 0x3e19_999a;

/// A face found by the network, in pixels of its input.
#[derive(Clone, Copy, Debug)]
pub struct Detection {
    /// How sure the network is.
    pub score: Binary32,
    /// Left, top, right and bottom of the box, then across and down for each landmark.
    pub data: [Binary32; 14],
}

/// The number with these bits.
pub open spec fn number(bits: u32) -> Binary32 {
    Binary32 { bits }
}

/// The number 0.
pub open spec fn zero() -> Binary32 {
    Binary32 { bits: 0 }
}

/// The number 1.
pub open spec fn one() -> Binary32 {
    Binary32 { bits: 0x3f80_0000 }
}

/// The number 2.
pub open spec fn two() -> Binary32 {
    Binary32 { bits: 0x4000_0000 }
}

/// What an offset counts for.
pub open spec fn center_variance() -> Binary32 {
    Binary32 { bits: CENTER_VARIANCE }
}

/// What the logarithm of a size counts for.
pub open spec fn size_variance() -> Binary32 {
    Binary32 { bits: SIZE_VARIANCE }
}

/// The logarithm of how many times as large as its prior box a face is, from what the network says
/// of it.
pub open spec fn log_growth(size: u32) -> Binary32 {
    binary32::product(number(size), size_variance())
}

/// The logarithms belong to the first `n` rows that count as found: one pair to each, in order.
pub open spec fn are_log_growths(
    logs: Seq<(Binary32, Binary32)>,
    loc: Seq<Seq<u32>>,
    conf: Seq<Seq<u32>>,
    iou: Seq<Seq<u32>>,
    n: nat,
) -> bool {
    let rows = found_rows(conf, iou, n);
    &&& logs.len() == rows.len()
    &&& forall|j: int|
        0 <= j < logs.len() ==> (#[trigger] logs[j]) == (log_growth(loc[rows[j]][2]), log_growth(loc[rows[j]][3]))
}

/// Below this score nothing counts as found.
pub open spec fn least_score() -> Binary32 {
    Binary32 { bits: LEAST_SCORE }
}

/// The score of a row: the geometric mean of its class score and its overlap score, the latter
/// brought between 0 and 1.
pub open spec fn row_score(conf: Seq<Seq<u32>>, iou: Seq<Seq<u32>>, i: int) -> Binary32 {
    binary32::square_root(
        binary32::product(number(conf[i][1]), binary32::clamped(number(iou[i][0]), zero(), one())),
    )
}

/// A row counts as found: its score is not below the least one.
pub open spec fn found(conf: Seq<Seq<u32>>, iou: Seq<Seq<u32>>, i: int) -> bool {
    !binary32::less(row_score(conf, iou, i), least_score())
}

/// The first `n` rows that count as found, in order.
pub open spec fn found_rows(conf: Seq<Seq<u32>>, iou: Seq<Seq<u32>>, n: nat) -> Seq<int> {
    selection::chosen(n, |i: int| found(conf, iou, i))
}

/// The rows of scores have the columns that are read.
pub open spec fn scores_shaped(conf: Seq<Seq<u32>>, iou: Seq<Seq<u32>>, n: nat) -> bool {
    &&& n <= conf.len()
    &&& n <= iou.len()
    &&& forall|i: int| 0 <= i < n ==> (#[trigger] conf[i]).len() >= 2
    &&& forall|i: int| 0 <= i < n ==> (#[trigger] iou[i]).len() >= 1
}

/// A row that counts as found has the columns that are read of it.
pub open spec fn found_shaped(rows: Seq<int>, table: Seq<Seq<u32>>, columns: nat) -> bool {
    forall|j: int|
        0 <= j < rows.len() ==> (#[trigger] rows[j]) < table.len() && table[rows[j]].len() >= columns
}

/// A coordinate that lies `offset`, weighed, times the size of a prior box from its center, as a
/// fraction of the input.
pub open spec fn placed(center: Binary32, size: Binary32, offset: Binary32) -> Binary32 {
    binary32::sum(center, binary32::product(binary32::product(offset, center_variance()), size))
}

/// Left and right of a box, or its top and bottom, in pixels.
pub open spec fn edges(middle: Binary32, length: Binary32, input: int) -> (Binary32, Binary32) {
    let half = binary32::quotient(length, two());
    (
        binary32::product(binary32::difference(middle, half), binary32::of_int(input)),
        binary32::product(binary32::sum(middle, half), binary32::of_int(input)),
    )
}

/// What a row of the network's output says of a face. `growth` is how many times as large as the
/// prior box the face is, across and down.
pub open spec fn decoded(
    loc: Seq<u32>,
    prior: Seq<u32>,
    growth: (Binary32, Binary32),
    input_w: int,
    input_h: int,
) -> Seq<Binary32> {
    let (px, py, pw, ph) = (number(prior[0]), number(prior[1]), number(prior[2]), number(prior[3]));
    let across = edges(placed(px, pw, number(loc[0])), binary32::product(pw, growth.0), input_w);
    let down = edges(placed(py, ph, number(loc[1])), binary32::product(ph, growth.1), input_h);
    seq![across.0, down.0, across.1, down.1] + Seq::new(
        10,
        |c: int|
            if c % 2 == 0 {
                binary32::product(placed(px, pw, number(loc[4 + c])), binary32::of_int(input_w))
            } else {
                binary32::product(placed(py, ph, number(loc[4 + c])), binary32::of_int(input_h))
            },
    )
}

fn score(cls_score: Binary32, iou_score: Binary32) -> (r: Binary32)
    ensures
        r == binary32::square_root(
            binary32::product(cls_score, binary32::clamped(iou_score, zero(), one())),
        ),
{
    cls_score.times(iou_score.clamp(Binary32::from_bits(0), Binary32::from_bits(0x3f80_0000))).root()
}

fn place(center: Binary32, size: Binary32, offset: Binary32) -> (r: Binary32)
    ensures
        r == placed(center, size, offset),
{
    center.plus(offset.times(Binary32::from_bits(CENTER_VARIANCE)).times(size))
}

/// Which of the first `num` rows count as found, in order.
pub fn rows_found(conf: &Matrix, iou: &Matrix, num: usize) -> (r: Vec<usize>)
    requires
        scores_shaped(conf@, iou@, num as nat),
    ensures
        r@.len() == found_rows(conf@, iou@, num as nat).len(),
        forall|j: int| 0 <= j < r@.len() ==> #[trigger] r@[j] == found_rows(conf@, iou@, num as nat)[j],
{
    let ghost wanted = |i: int| found(conf@, iou@, i);
    let mut rows: Vec<usize> = Vec::new();
    let mut i: usize = 0;
    while i < num
        invariant
            i <= num,
            wanted == (|i: int| found(conf@, iou@, i)),
            scores_shaped(conf@, iou@, num as nat),
            rows@.len() == selection::chosen(i as nat, wanted).len(),
            forall|j: int| 0 <= j < rows@.len() ==> #[trigger] rows@[j] == selection::chosen(i as nat, wanted)[j],
        decreases num - i,
    {
        assert(conf@[i as int].len() >= 2 && iou@[i as int].len() >= 1);
        let score = score(conf.at(i, 1), iou.at(i, 0));
        if !score.less_than(Binary32::from_bits(LEAST_SCORE)) {
            assert(wanted(i as int));
            rows.push(i);
        } else {
            assert(!wanted(i as int));
        }
        i = i + 1;
    }
    rows
}

/// The logarithms of how many times as large as their prior boxes the found faces are, across and
/// down: one pair to each of the first `num` rows that counts as found, in order.
pub fn log_growths(loc: &Matrix, conf: &Matrix, iou: &Matrix, num: usize) -> (r: Vec<(Binary32, Binary32)>)
    requires
        scores_shaped(conf@, iou@, num as nat),
        found_shaped(found_rows(conf@, iou@, num as nat), loc@, 4),
    ensures
        are_log_growths(r@, loc@, conf@, iou@, num as nat),
{
    let size_variance = Binary32::from_bits(SIZE_VARIANCE);
    let rows = rows_found(conf, iou, num);
    let ghost all = found_rows(conf@, iou@, num as nat);
    let mut logs: Vec<(Binary32, Binary32)> = Vec::new();
    let mut j: usize = 0;
    while j < rows.len()
        invariant
            j <= rows@.len(),
            rows@.len() == all.len(),
            forall|j: int| 0 <= j < rows@.len() ==> #[trigger] rows@[j] == all[j],
            found_shaped(all, loc@, 4),
            size_variance == self::size_variance(),
            logs@.len() == j,
            forall|j: int|
                0 <= j < logs@.len() ==> (#[trigger] logs@[j]) == (log_growth(loc@[all[j]][2]), log_growth(loc@[all[j]][3])),
        decreases rows@.len() - j,
    {
        let i: usize = rows[j];
        assert(all[j as int] < loc@.len());
        logs.push((loc.at(i, 2).times(size_variance), loc.at(i, 3).times(size_variance)));
        j = j + 1;
    }
    logs
}

fn bounds(middle: Binary32, length: Binary32, input: Binary32) -> (r: (Binary32, Binary32))
    ensures
        forall|v: int| input == #[trigger] binary32::of_int(v) ==> r == edges(middle, length, v),
{
    let half = length.over(Binary32::from_bits(0x4000_0000));
    (middle.minus(half).times(input), middle.plus(half).times(input))
}

/// Reads the face that row `i` describes.
#[verifier::spinoff_prover]
fn decode_row(
    loc: &Matrix,
    priors: &Matrix,
    i: usize,
    growth: (Binary32, Binary32),
    input_w: i32,
    input_h: i32,
) -> (r: [Binary32; 14])
    requires
        i < loc@.len(),
        i < priors@.len(),
        loc@[i as int].len() >= 14,
        priors@[i as int].len() >= 4,
    ensures
        r@ == decoded(loc@[i as int], priors@[i as int], growth, input_w as int, input_h as int),
{
    let width = Binary32::from_i32(input_w);
    let height = Binary32::from_i32(input_h);
    let px = priors.at(i, 0);
    let py = priors.at(i, 1);
    let pw = priors.at(i, 2);
    let ph = priors.at(i, 3);

    let cx = place(px, pw, loc.at(i, 0));
    let cy = place(py, ph, loc.at(i, 1));
    let w = pw.times(growth.0);
    let h = ph.times(growth.1);
    let (x1, x2) = bounds(cx, w, width);
    let (y1, y2) = bounds(cy, h, height);

    let mut data: [Binary32; 14] = [Binary32::from_bits(0); 14];
    data[0] = x1;
    data[1] = y1;
    data[2] = x2;
    data[3] = y2;
    let ghost all = decoded(loc@[i as int], priors@[i as int], growth, input_w as int, input_h as int);
    let mut k: usize = 0;
    while k < 5
        invariant
            k <= 5,
            i < loc@.len(),
            loc@[i as int].len() >= 14,
            all == decoded(loc@[i as int], priors@[i as int], growth, input_w as int, input_h as int),
            width == binary32::of_int(input_w as int),
            height == binary32::of_int(input_h as int),
            px.bits == priors@[i as int][0],
            py.bits == priors@[i as int][1],
            pw.bits == priors@[i as int][2],
            ph.bits == priors@[i as int][3],
            forall|c: int| 0 <= c < 4 + 2 * k ==> #[trigger] data@[c] == all[c],
        decreases 5 - k,
    {
        data[4 + k * 2] = place(px, pw, loc.at(i, 4 + k * 2)).times(width);
        data[5 + k * 2] = place(py, ph, loc.at(i, 5 + k * 2)).times(height);
        k = k + 1;
    }
    assert(data@ =~= all);
    data
}

/// The detections are the faces among the rows of the network's output: those of the rows that
/// count as found, in order.
pub open spec fn are_detections_of(
    detections: Seq<Detection>,
    loc: Seq<Seq<u32>>,
    conf: Seq<Seq<u32>>,
    iou: Seq<Seq<u32>>,
    priors: Seq<Seq<u32>>,
    growths: Seq<(Binary32, Binary32)>,
    input_w: int,
    input_h: int,
) -> bool {
    let rows = found_rows(conf, iou, priors.len());
    &&& detections.len() == rows.len()
    &&& forall|j: int|
        0 <= j < detections.len() ==> (#[trigger] detections[j]).score == row_score(conf, iou, rows[j])
    &&& forall|j: int|
        0 <= j < detections.len() ==> (#[trigger] detections[j]).data@ == decoded(
            loc[rows[j]],
            priors[rows[j]],
            growths[j],
            input_w,
            input_h,
        )
}

/// The faces among the rows of the network's output: the rows that count as found, in order.
///
/// `growths` says how many times as large as its prior box each of these faces is, across and
/// down: the exponentials of [`log_growths`].
pub fn decode(
    loc: &Matrix,
    conf: &Matrix,
    iou: &Matrix,
    priors: &Matrix,
    growths: &Vec<(Binary32, Binary32)>,
    input_w: i32,
    input_h: i32,
) -> (r: Vec<Detection>)
    requires
        scores_shaped(conf@, iou@, priors@.len()),
        found_shaped(found_rows(conf@, iou@, priors@.len()), loc@, 14),
        found_shaped(found_rows(conf@, iou@, priors@.len()), priors@, 4),
        growths@.len() == found_rows(conf@, iou@, priors@.len()).len(),
    ensures
        are_detections_of(r@, loc@, conf@, iou@, priors@, growths@, input_w as int, input_h as int),
{
    let rows = rows_found(conf, iou, priors.row_count());
    let ghost all = found_rows(conf@, iou@, priors@.len());
    let mut detections: Vec<Detection> = Vec::new();
    let mut j: usize = 0;
    proof {
        found_rows_are_the_found_ones(conf@, iou@, priors@.len());
    }
    while j < rows.len()
        invariant
            j <= rows@.len(),
            rows@.len() == all.len(),
            forall|j: int| 0 <= j < rows@.len() ==> #[trigger] rows@[j] == all[j],
            forall|j: int| 0 <= j < all.len() ==> 0 <= #[trigger] all[j] < priors@.len(),
            scores_shaped(conf@, iou@, priors@.len()),
            found_shaped(all, loc@, 14),
            found_shaped(all, priors@, 4),
            growths@.len() == all.len(),
            detections@.len() == j,
            forall|j: int|
                0 <= j < detections@.len() ==> (#[trigger] detections@[j]).score == row_score(conf@, iou@, all[j]),
            forall|j: int|
                0 <= j < detections@.len() ==> (#[trigger] detections@[j]).data@ == decoded(
                    loc@[all[j]],
                    priors@[all[j]],
                    growths@[j],
                    input_w as int,
                    input_h as int,
                ),
        decreases rows@.len() - j,
    {
        let i: usize = rows[j];
        proof {
            assert(all[j as int] < priors@.len());
            assert(conf@[i as int].len() >= 2 && iou@[i as int].len() >= 1);
        }
        let score = score(conf.at(i, 1), iou.at(i, 0));
        let data = decode_row(loc, priors, i, growths[j], input_w, input_h);
        detections.push(Detection { score, data });
        j = j + 1;
    }
    detections
}

/// The rows that count as found are those, and only those, whose score is not below the least one;
/// they come in order, each once.
pub proof fn found_rows_are_the_found_ones(conf: Seq<Seq<u32>>, iou: Seq<Seq<u32>>, n: nat)
    ensures
        forall|j: int|
            0 <= j < found_rows(conf, iou, n).len() ==> 0 <= #[trigger] found_rows(conf, iou, n)[j] < n && found(
                conf,
                iou,
                found_rows(conf, iou, n)[j],
            ),
        forall|j: int, k: int|
            0 <= j < k < found_rows(conf, iou, n).len() ==> #[trigger] found_rows(conf, iou, n)[j]
                < #[trigger] found_rows(conf, iou, n)[k],
        forall|i: int| 0 <= i < n && #[trigger] found(conf, iou, i) ==> found_rows(conf, iou, n).contains(i),
{
    let wanted = |i: int| found(conf, iou, i);
    selection::chosen_are_wanted(n, wanted);
    assert forall|j: int| 0 <= j < found_rows(conf, iou, n).len() implies 0 <= #[trigger] found_rows(conf, iou, n)[j]
        < n && found(conf, iou, found_rows(conf, iou, n)[j]) by {
        assert(wanted(selection::chosen(n, wanted)[j]));
    }
    assert forall|i: int| 0 <= i < n && #[trigger] found(conf, iou, i) implies found_rows(conf, iou, n).contains(i) by {
        assert(wanted(i));
        selection::wanted_are_chosen(n, wanted, i);
    }
}

/// An offset of zero leaves a coordinate at the center of the prior box.
pub proof fn no_offset_stays_at_the_center(center: Binary32, size: Binary32)
    requires
        center.magnitude() < rounding::INFINITY_BITS,
        center.is_zero() ==> !center.negative(),
        size.magnitude() < rounding::INFINITY_BITS,
    ensures
        placed(center, size, zero()) == center,
{
    binary32::times_zero_is_zero(zero(), center_variance());
    let none = binary32::product(zero(), center_variance());
    binary32::times_zero_is_zero(none, size);
    binary32::plus_zero_is_unchanged(center, binary32::product(none, size));
}

/// A number is another one added to itself: exactly twice the other, unless that is too large.
pub open spec fn is_twice(b: Binary32, a: Binary32) -> bool {
    &&& b == binary32::sum(a, a)
    &&& b.magnitude() < rounding::INFINITY_BITS ==> b.value() == 2 * a.value()
}

proof fn lemma_twice(u: Binary32, input: int)
    requires
        i32::MIN <= 2 * input <= i32::MAX,
    ensures
        is_twice(
            binary32::product(u, binary32::of_int(2 * input)),
            binary32::product(u, binary32::of_int(input)),
        ),
{
    binary32::times_a_doubled_integer(u, input);
    let a = binary32::product(u, binary32::of_int(input));
    if a.magnitude() < rounding::INFINITY_BITS {
        binary32::sum_with_itself_is_twice(a);
    } else {
        reveal(binary32::sum);
    }
}

/// What a row says of a face on an input twice as wide: every number across is twice as large, and
/// every number down is the same.
proof fn lemma_wider(loc: Seq<u32>, prior: Seq<u32>, growth: (Binary32, Binary32), input_w: int, input_h: int)
    requires
        i32::MIN <= 2 * input_w <= i32::MAX,
    ensures
        forall|c: int|
            0 <= c < 14 && c % 2 == 0 ==> is_twice(
                #[trigger] decoded(loc, prior, growth, 2 * input_w, input_h)[c],
                decoded(loc, prior, growth, input_w, input_h)[c],
            ),
        forall|c: int|
            0 <= c < 14 && c % 2 == 1 ==> #[trigger] decoded(loc, prior, growth, 2 * input_w, input_h)[c]
                == decoded(loc, prior, growth, input_w, input_h)[c],
{
    let (px, pw) = (number(prior[0]), number(prior[2]));
    let middle = placed(px, pw, number(loc[0]));
    let half = binary32::quotient(binary32::product(pw, growth.0), two());
    let wide = decoded(loc, prior, growth, 2 * input_w, input_h);
    let narrow = decoded(loc, prior, growth, input_w, input_h);
    lemma_twice(binary32::difference(middle, half), input_w);
    lemma_twice(binary32::sum(middle, half), input_w);
    assert forall|c: int| 0 <= c < 14 && c % 2 == 0 implies is_twice(#[trigger] wide[c], narrow[c]) by {
        if c >= 4 {
            lemma_twice(placed(px, pw, number(loc[c])), input_w);
        }
    }
}

/// What a row says of a face on an input twice as high: every number down is twice as large, and
/// every number across is the same.
proof fn lemma_higher(loc: Seq<u32>, prior: Seq<u32>, growth: (Binary32, Binary32), input_w: int, input_h: int)
    requires
        i32::MIN <= 2 * input_h <= i32::MAX,
    ensures
        forall|c: int|
            0 <= c < 14 && c % 2 == 1 ==> is_twice(
                #[trigger] decoded(loc, prior, growth, input_w, 2 * input_h)[c],
                decoded(loc, prior, growth, input_w, input_h)[c],
            ),
        forall|c: int|
            0 <= c < 14 && c % 2 == 0 ==> #[trigger] decoded(loc, prior, growth, input_w, 2 * input_h)[c]
                == decoded(loc, prior, growth, input_w, input_h)[c],
{
    let (py, ph) = (number(prior[1]), number(prior[3]));
    let middle = placed(py, ph, number(loc[1]));
    let half = binary32::quotient(binary32::product(ph, growth.1), two());
    let high = decoded(loc, prior, growth, input_w, 2 * input_h);
    let low = decoded(loc, prior, growth, input_w, input_h);
    lemma_twice(binary32::difference(middle, half), input_h);
    lemma_twice(binary32::sum(middle, half), input_h);
    assert forall|c: int| 0 <= c < 14 && c % 2 == 1 implies is_twice(#[trigger] high[c], low[c]) by {
        if c >= 4 {
            lemma_twice(placed(py, ph, number(loc[c])), input_h);
        }
    }
}

/// Doubling the width of the input finds the same faces with the same scores, doubles every number
/// across and leaves every number down.
pub proof fn width_scales_only_across(
    narrow: Seq<Detection>,
    wide: Seq<Detection>,
    loc: Seq<Seq<u32>>,
    conf: Seq<Seq<u32>>,
    iou: Seq<Seq<u32>>,
    priors: Seq<Seq<u32>>,
    growths: Seq<(Binary32, Binary32)>,
    input_w: int,
    input_h: int,
)
    requires
        i32::MIN <= 2 * input_w <= i32::MAX,
        are_detections_of(narrow, loc, conf, iou, priors, growths, input_w, input_h),
        are_detections_of(wide, loc, conf, iou, priors, growths, 2 * input_w, input_h),
    ensures
        wide.len() == narrow.len(),
        forall|j: int| 0 <= j < wide.len() ==> (#[trigger] wide[j]).score == narrow[j].score,
        forall|j: int, c: int|
            0 <= j < wide.len() && 0 <= c < 14 && c % 2 == 0 ==> is_twice(
                #[trigger] wide[j].data@[c],
                narrow[j].data@[c],
            ),
        forall|j: int, c: int|
            0 <= j < wide.len() && 0 <= c < 14 && c % 2 == 1 ==> #[trigger] wide[j].data@[c] == narrow[j].data@[c],
{
    let rows = found_rows(conf, iou, priors.len());
    assert forall|j: int| 0 <= j < wide.len() implies (#[trigger] wide[j]).score == narrow[j].score by {
        assert(narrow[j].score == row_score(conf, iou, rows[j]));
    }
    assert forall|j: int, c: int| 0 <= j < wide.len() && 0 <= c < 14 implies if c % 2 == 0 {
        is_twice(#[trigger] wide[j].data@[c], narrow[j].data@[c])
    } else {
        wide[j].data@[c] == narrow[j].data@[c]
    } by {
        lemma_wider(loc[rows[j]], priors[rows[j]], growths[j], input_w, input_h);
        assert(narrow[j].data@ == decoded(loc[rows[j]], priors[rows[j]], growths[j], input_w, input_h));
    }
}

/// Doubling the height of the input finds the same faces with the same scores, doubles every number
/// down and leaves every number across.
pub proof fn height_scales_only_down(
    low: Seq<Detection>,
    high: Seq<Detection>,
    loc: Seq<Seq<u32>>,
    conf: Seq<Seq<u32>>,
    iou: Seq<Seq<u32>>,
    priors: Seq<Seq<u32>>,
    growths: Seq<(Binary32, Binary32)>,
    input_w: int,
    input_h: int,
)
    requires
        i32::MIN <= 2 * input_h <= i32::MAX,
        are_detections_of(low, loc, conf, iou, priors, growths, input_w, input_h),
        are_detections_of(high, loc, conf, iou, priors, growths, input_w, 2 * input_h),
    ensures
        high.len() == low.len(),
        forall|j: int| 0 <= j < high.len() ==> (#[trigger] high[j]).score == low[j].score,
        forall|j: int, c: int|
            0 <= j < high.len() && 0 <= c < 14 && c % 2 == 1 ==> is_twice(#[trigger] high[j].data@[c], low[j].data@[c]),
        forall|j: int, c: int|
            0 <= j < high.len() && 0 <= c < 14 && c % 2 == 0 ==> #[trigger] high[j].data@[c] == low[j].data@[c],
{
    let rows = found_rows(conf, iou, priors.len());
    assert forall|j: int| 0 <= j < high.len() implies (#[trigger] high[j]).score == low[j].score by {
        assert(low[j].score == row_score(conf, iou, rows[j]));
    }
    assert forall|j: int, c: int| 0 <= j < high.len() && 0 <= c < 14 implies if c % 2 == 1 {
        is_twice(#[trigger] high[j].data@[c], low[j].data@[c])
    } else {
        high[j].data@[c] == low[j].data@[c]
    } by {
        lemma_higher(loc[rows[j]], priors[rows[j]], growths[j], input_w, input_h);
        assert(low[j].data@ == decoded(loc[rows[j]], priors[rows[j]], growths[j], input_w, input_h));
    }
}

} // verus!
