use crate::accuracy;
use crate::binary32;
use crate::binary32::Binary32;
use crate::decode::Detection;
use crate::geometry::Rect;
use crate::nms;
use crate::nms::Candidates;
use vstd::prelude::*;

verus! {

/// A face in the picture that came from the camera.
#[derive(Clone, Copy, Debug)]
pub struct FaceDetection {
    /// The box around the face.
    pub bbox: Rect,
    /// How sure the network is.
    pub confidence: Binary32,
    /// Right eye, left eye, nose, right and left corner of the mouth, across and down.
    pub landmarks: [(Binary32, Binary32); 5],
}

/// A length from `low` to `high`, scaled and cut to whole pixels.
pub open spec fn scaled_length(low: Binary32, high: Binary32, scale: Binary32) -> int {
    binary32::truncated(binary32::product(binary32::difference(high, low), scale))
}

/// A coordinate, scaled and cut to whole pixels.
pub open spec fn scaled(v: Binary32, scale: Binary32) -> int {
    binary32::truncated(binary32::product(v, scale))
}

/// The face is the detection's, scaled from the network's input to the picture.
pub open spec fn is_face_of(
    face: FaceDetection,
    detection: Detection,
    scale_x: Binary32,
    scale_y: Binary32,
) -> bool {
    let data = detection.data@;
    &&& face.bbox.x == scaled(data[0], scale_x)
    &&& face.bbox.y == scaled(data[1], scale_y)
    &&& face.bbox.width == scaled_length(data[0], data[2], scale_x)
    &&& face.bbox.height == scaled_length(data[1], data[3], scale_y)
    &&& face.confidence == detection.score
    &&& forall|k: int|
        0 <= k < 5 ==> #[trigger] face.landmarks@[k] == (
            binary32::product(data[4 + 2 * k], scale_x),
            binary32::product(data[5 + 2 * k], scale_y),
        )
}

/// The faces are those of the detections that the suppression of overlaps left, in its order.
pub open spec fn are_faces_of(
    faces: Seq<FaceDetection>,
    detections: Seq<Detection>,
    original_indices: Seq<usize>,
    indices: Seq<i32>,
    scale_x: Binary32,
    scale_y: Binary32,
) -> bool {
    let keep = nms::kept(indices, original_indices);
    &&& faces.len() == keep.len()
    &&& forall|n: int|
        0 <= n < faces.len() ==> is_face_of(#[trigger] faces[n], detections[keep[n] as int], scale_x, scale_y)
}

fn scale_face(detection: &Detection, scale_x: Binary32, scale_y: Binary32) -> (r: FaceDetection)
    ensures
        is_face_of(r, *detection, scale_x, scale_y),
{
    let data = detection.data;
    let bbox = Rect {
        x: data[0].times(scale_x).to_i32(),
        y: data[1].times(scale_y).to_i32(),
        width: data[2].minus(data[0]).times(scale_x).to_i32(),
        height: data[3].minus(data[1]).times(scale_y).to_i32(),
    };
    let landmarks: [(Binary32, Binary32); 5] = [
        (data[4].times(scale_x), data[5].times(scale_y)),
        (data[6].times(scale_x), data[7].times(scale_y)),
        (data[8].times(scale_x), data[9].times(scale_y)),
        (data[10].times(scale_x), data[11].times(scale_y)),
        (data[12].times(scale_x), data[13].times(scale_y)),
    ];
    FaceDetection { bbox, confidence: detection.score, landmarks }
}

/// The faces that are left once overlaps are suppressed, in the coordinates of the picture.
///
/// `indices` is what the suppression of overlaps gave for the candidates.
pub fn postprocess_yunet(
    detections: &Vec<Detection>,
    candidates: &Candidates,
    indices: &Vec<i32>,
    scale_x: Binary32,
    scale_y: Binary32,
) -> (r: Vec<FaceDetection>)
    requires
        forall|j: int|
            0 <= j < candidates.original_indices@.len() ==> (#[trigger] candidates.original_indices@[j])
                < detections@.len(),
    ensures
        are_faces_of(r@, detections@, candidates.original_indices@, indices@, scale_x, scale_y),
{
    let keep = nms::nms_keep(indices, &candidates.original_indices);
    let mut faces: Vec<FaceDetection> = Vec::new();
    let mut n: usize = 0;
    while n < keep.len()
        invariant
            n <= keep@.len(),
            keep@ == nms::kept(indices@, candidates.original_indices@),
            forall|j: int|
                0 <= j < candidates.original_indices@.len() ==> (#[trigger] candidates.original_indices@[j])
                    < detections@.len(),
            faces@.len() == n,
            forall|m: int|
                0 <= m < faces@.len() ==> is_face_of(
                    #[trigger] faces@[m],
                    detections@[keep@[m] as int],
                    scale_x,
                    scale_y,
                ),
        decreases keep@.len() - n,
    {
        proof {
            nms::kept_was_named(indices@, candidates.original_indices@, n as int);
        }
        let idx: usize = keep[n];
        faces.push(scale_face(&detections[idx], scale_x, scale_y));
        n = n + 1;
    }
    faces
}

/// Where nothing is scaled, a face has the box of its detection, cut to whole pixels, and its
/// landmarks as they are.
pub proof fn unscaled_faces_stay_in_place(face: FaceDetection, detection: Detection)
    requires
        is_face_of(face, detection, binary32::of_int(1), binary32::of_int(1)),
    ensures
        face.bbox.x == binary32::truncated(detection.data@[0]),
        face.bbox.y == binary32::truncated(detection.data@[1]),
        face.bbox.width == binary32::truncated(binary32::difference(detection.data@[2], detection.data@[0])),
        face.bbox.height == binary32::truncated(binary32::difference(detection.data@[3], detection.data@[1])),
        forall|k: int|
            0 <= k < 5 && !detection.data@[4 + 2 * k].is_nan() ==> (#[trigger] face.landmarks@[k]).0
                == detection.data@[4 + 2 * k],
        forall|k: int|
            0 <= k < 5 && !detection.data@[5 + 2 * k].is_nan() ==> (#[trigger] face.landmarks@[k]).1
                == detection.data@[5 + 2 * k],
{
    let one = binary32::of_int(1);
    let data = detection.data@;
    lemma_unscaled(data[0]);
    lemma_unscaled(data[1]);
    lemma_unscaled(binary32::difference(data[2], data[0]));
    lemma_unscaled(binary32::difference(data[3], data[1]));
    assert forall|k: int| 0 <= k < 5 && !data[4 + 2 * k].is_nan() implies (#[trigger] face.landmarks@[k]).0
        == data[4 + 2 * k] by {
        binary32::times_one_is_unchanged(data[4 + 2 * k], one);
    }
    assert forall|k: int| 0 <= k < 5 && !data[5 + 2 * k].is_nan() implies (#[trigger] face.landmarks@[k]).1
        == data[5 + 2 * k] by {
        binary32::times_one_is_unchanged(data[5 + 2 * k], one);
    }
}

proof fn lemma_unscaled(v: Binary32)
    ensures
        scaled(v, binary32::of_int(1)) == binary32::truncated(v),
{
    if v.is_nan() {
        reveal(binary32::product);
        reveal(binary32::truncated);
    } else {
        binary32::times_one_is_unchanged(v, binary32::of_int(1));
    }
}

/// Without detections there are no faces, whatever the suppression of overlaps gives.
pub proof fn no_faces_without_detections(
    detections: Seq<Detection>,
    threshold: Binary32,
    candidates: Candidates,
    indices: Seq<i32>,
    faces: Seq<FaceDetection>,
)
    requires
        detections.len() == 0,
        nms::are_candidates_of(candidates, detections, threshold),
        faces.len() == nms::kept(indices, candidates.original_indices@).len(),
    ensures
        faces.len() == 0,
{
    nms::nothing_kept_of_nothing(detections, threshold, candidates, indices);
}

/// A face and its detection, number by number: left and top times the factor of their direction, and
/// how far right and bottom lie beyond them times that factor, each cut to a whole pixel; each
/// landmark times the same factors; and the score as it is.
pub proof fn faces_are_scaled_detections(
    face: FaceDetection,
    detection: Detection,
    scale_x: Binary32,
    scale_y: Binary32,
)
    requires
        is_face_of(face, detection, scale_x, scale_y),
    ensures
        face.confidence == detection.score,
        face.bbox.x == binary32::truncated(binary32::product(detection.data@[0], scale_x)),
        face.bbox.y == binary32::truncated(binary32::product(detection.data@[1], scale_y)),
        face.bbox.width == binary32::truncated(
            binary32::product(binary32::difference(detection.data@[2], detection.data@[0]), scale_x),
        ),
        face.bbox.height == binary32::truncated(
            binary32::product(binary32::difference(detection.data@[3], detection.data@[1]), scale_y),
        ),
        forall|k: int|
            0 <= k < 5 ==> (#[trigger] face.landmarks@[k]).0 == binary32::product(detection.data@[4 + 2 * k], scale_x),
        forall|k: int|
            0 <= k < 5 ==> (#[trigger] face.landmarks@[k]).1 == binary32::product(detection.data@[5 + 2 * k], scale_y),
{
}

/// A landmark at the upper left corner of the box is, cut to whole pixels, the corner of the scaled
/// box: box and landmarks are scaled alike.
pub proof fn corners_move_with_the_landmarks(
    face: FaceDetection,
    detection: Detection,
    scale_x: Binary32,
    scale_y: Binary32,
    k: int,
)
    requires
        is_face_of(face, detection, scale_x, scale_y),
        0 <= k < 5,
    ensures
        detection.data@[4 + 2 * k] == detection.data@[0] ==> face.bbox.x == binary32::truncated(face.landmarks@[k].0),
        detection.data@[5 + 2 * k] == detection.data@[1] ==> face.bbox.y == binary32::truncated(face.landmarks@[k].1),
{
    assert(face.landmarks@[k] == face.landmarks@[k]);
}

/// A pixel is where a real number lies: less than one away, or a part in four million more.
pub open spec fn is_pixel_of(pixel: i32, exact: real) -> bool {
    (0x40_0000 as real) * accuracy::size(pixel as real - exact) < 0x40_0000 as real + accuracy::size(exact)
        + accuracy::negligible()
}

#[verifier::spinoff_prover]
proof fn lemma_pixel(v: Binary32, scale: Binary32, exact: real)
    requires
        accuracy::is_finite(v),
        accuracy::is_moderate(scale),
        (0x100_0000 as real) * accuracy::size(accuracy::real_of(v) - exact) <= accuracy::size(exact),
        accuracy::size(exact) <= 0x20_0000 as real,
        accuracy::size(exact * accuracy::real_of(scale)) <= 0x4000_0000 as real,
    ensures
        i32::MIN <= scaled(v, scale) <= i32::MAX,
        is_pixel_of(scaled(v, scale) as i32, exact * accuracy::real_of(scale)),
{
    let (x, s) = (accuracy::real_of(v), accuracy::real_of(scale));
    let gap = x - exact;
    accuracy::underflow_is_negligible();
    accuracy::sizes_multiply(gap, s);
    accuracy::sizes_multiply(exact, s);
    accuracy::products_grow(
        (0x100_0000 as real) * accuracy::size(gap),
        accuracy::size(s),
        accuracy::size(exact),
        accuracy::size(s),
    );
    let (gs, ss, xs, es) = (accuracy::size(gap), accuracy::size(s), x * s, exact * s);
    assert(gap * s == xs - es) by (nonlinear_arith)
        requires
            gap == x - exact,
            xs == x * s,
            es == exact * s,
    ;
    assert(((0x100_0000 as real) * gs) * ss == (0x100_0000 as real) * (gs * ss)) by (nonlinear_arith);
    assert((0x100_0000 as real) * accuracy::size(xs - es) <= accuracy::size(es));
    assert(accuracy::size(xs) <= 0x5000_0000 as real);
    accuracy::products_are_accurate(v, scale);
    accuracy::roundoff_of(accuracy::size(xs));
    let r = binary32::product(v, scale);
    let rr = accuracy::real_of(r);
    accuracy::truncations_go_toward_zero(r);
    assert(accuracy::size(rr) < 0x6000_0000 as real);
    assert((0x80_0000 as real) * accuracy::size(rr - es) <= (2 as real) * accuracy::size(es) + (0x100_0000 as real)
        * accuracy::underflow());
}

/// The scaled box lies where the detection's box does, times the picture's factors.
pub proof fn boxes_lie_where_the_detection_does(
    face: FaceDetection,
    detection: Detection,
    scale_x: Binary32,
    scale_y: Binary32,
)
    requires
        is_face_of(face, detection, scale_x, scale_y),
        accuracy::is_moderate(scale_x),
        accuracy::is_moderate(scale_y),
        forall|c: int| 0 <= c < 4 ==> accuracy::is_moderate(#[trigger] detection.data@[c]),
    ensures
        ({
            let (left, top) = (accuracy::real_of(detection.data@[0]), accuracy::real_of(detection.data@[1]));
            let (right, bottom) = (accuracy::real_of(detection.data@[2]), accuracy::real_of(detection.data@[3]));
            let (x, y) = (accuracy::real_of(scale_x), accuracy::real_of(scale_y));
            let most = 0x4000_0000 as real;
            &&& accuracy::size(left * x) <= most ==> is_pixel_of(face.bbox.x, left * x)
            &&& accuracy::size(top * y) <= most ==> is_pixel_of(face.bbox.y, top * y)
            &&& accuracy::size((right - left) * x) <= most ==> is_pixel_of(face.bbox.width, (right - left) * x)
            &&& accuracy::size((bottom - top) * y) <= most ==> is_pixel_of(face.bbox.height, (bottom - top) * y)
        }),
{
    let d = detection.data@;
    assert(accuracy::is_moderate(d[0]) && accuracy::is_moderate(d[1]) && accuracy::is_moderate(d[2])
        && accuracy::is_moderate(d[3]));
    let most = 0x4000_0000 as real;
    let (left, top) = (accuracy::real_of(d[0]), accuracy::real_of(d[1]));
    let (right, bottom) = (accuracy::real_of(d[2]), accuracy::real_of(d[3]));
    let (x, y) = (accuracy::real_of(scale_x), accuracy::real_of(scale_y));
    if accuracy::size(left * x) <= most {
        lemma_pixel(d[0], scale_x, left);
    }
    if accuracy::size(top * y) <= most {
        lemma_pixel(d[1], scale_y, top);
    }
    accuracy::underflow_is_negligible();
    accuracy::differences_are_accurate(d[2], d[0]);
    accuracy::differences_are_accurate(d[3], d[1]);
    accuracy::roundoff_of(accuracy::size(right - left));
    accuracy::roundoff_of(accuracy::size(bottom - top));
    if accuracy::size((right - left) * x) <= most {
        lemma_pixel(binary32::difference(d[2], d[0]), scale_x, right - left);
    }
    if accuracy::size((bottom - top) * y) <= most {
        lemma_pixel(binary32::difference(d[3], d[1]), scale_y, bottom - top);
    }
}

/// Twice the factor leads to twice the pixel, or to the one after it.
#[verifier::spinoff_prover]
proof fn lemma_doubled_scale(v: Binary32, scale: Binary32)
    requires
        accuracy::is_finite(v),
        accuracy::is_finite(scale),
        accuracy::is_finite(binary32::sum(scale, scale)),
        accuracy::real_of(v) >= 0 as real,
        accuracy::real_of(scale) >= 0 as real,
        scaled(v, binary32::sum(scale, scale)) < i32::MAX,
    ensures
        2 * scaled(v, scale) <= scaled(v, binary32::sum(scale, scale)) <= 2 * scaled(v, scale) + 1,
{
    let twice = binary32::sum(scale, scale);
    let (r, d) = (binary32::product(v, scale), binary32::product(v, twice));
    let (x, s) = (accuracy::real_of(v), accuracy::real_of(scale));
    accuracy::underflow_is_negligible();
    accuracy::twice_is_exact(scale);
    let (t, exact) = (accuracy::real_of(twice), x * s);
    assert(x * t == 2 as real * exact && exact >= 0 as real) by (nonlinear_arith)
        requires
            t == 2 as real * s,
            exact == x * s,
            x >= 0 as real,
            s >= 0 as real,
    ;
    accuracy::products_are_accurate(v, scale);
    accuracy::products_are_accurate(v, twice);
    accuracy::roundoff_of(accuracy::size(exact));
    accuracy::roundoff_of(accuracy::size(2 as real * exact));
    accuracy::finite_products(v, scale);
    accuracy::finite_products(v, twice);
    if accuracy::is_finite(d) {
        accuracy::truncations_go_toward_zero(d);
        accuracy::products_keep_the_sign(v, twice);
    }
    if accuracy::is_finite(r) {
        accuracy::truncations_go_toward_zero(r);
        accuracy::products_keep_the_sign(v, scale);
    }
    assert(accuracy::is_finite(d) && accuracy::is_finite(r));
    if r.magnitude() > 0x80_0000 {
        binary32::times_a_doubled_number(v, scale);
        accuracy::twice_is_exact(r);
    } else {
        accuracy::smallest_numbers(r);
    }
}

/// A picture twice as large has the face twice as far, or one pixel more, and twice as large, or one
/// pixel more; and its landmarks exactly twice as far, unless they are among the smallest numbers.
pub proof fn faces_grow_with_the_picture(
    small: FaceDetection,
    large: FaceDetection,
    detection: Detection,
    scale_x: Binary32,
    scale_y: Binary32,
)
    requires
        is_face_of(small, detection, scale_x, scale_y),
        is_face_of(large, detection, binary32::sum(scale_x, scale_x), binary32::sum(scale_y, scale_y)),
        accuracy::is_finite(scale_x) && accuracy::is_finite(binary32::sum(scale_x, scale_x)),
        accuracy::is_finite(scale_y) && accuracy::is_finite(binary32::sum(scale_y, scale_y)),
        accuracy::real_of(scale_x) >= 0 as real,
        accuracy::real_of(scale_y) >= 0 as real,
    ensures
        accuracy::is_finite(detection.data@[0]) && accuracy::real_of(detection.data@[0]) >= 0 as real && large.bbox.x
            < i32::MAX ==> 2 * small.bbox.x <= large.bbox.x <= 2 * small.bbox.x + 1,
        accuracy::is_finite(detection.data@[1]) && accuracy::real_of(detection.data@[1]) >= 0 as real && large.bbox.y
            < i32::MAX ==> 2 * small.bbox.y <= large.bbox.y <= 2 * small.bbox.y + 1,
        ({
            let d = binary32::difference(detection.data@[2], detection.data@[0]);
            accuracy::is_finite(d) && accuracy::real_of(d) >= 0 as real && large.bbox.width < i32::MAX
        }) ==> 2 * small.bbox.width <= large.bbox.width <= 2 * small.bbox.width + 1,
        ({
            let d = binary32::difference(detection.data@[3], detection.data@[1]);
            accuracy::is_finite(d) && accuracy::real_of(d) >= 0 as real && large.bbox.height < i32::MAX
        }) ==> 2 * small.bbox.height <= large.bbox.height <= 2 * small.bbox.height + 1,
        forall|k: int|
            0 <= k < 5 && 0x80_0000 < small.landmarks@[k].0.magnitude() && accuracy::is_finite(small.landmarks@[k].0)
                ==> (#[trigger] large.landmarks@[k]).0 == binary32::sum(
                small.landmarks@[k].0,
                small.landmarks@[k].0,
            ),
        forall|k: int|
            0 <= k < 5 && 0x80_0000 < small.landmarks@[k].1.magnitude() && accuracy::is_finite(small.landmarks@[k].1)
                ==> (#[trigger] large.landmarks@[k]).1 == binary32::sum(
                small.landmarks@[k].1,
                small.landmarks@[k].1,
            ),
{
    let data = detection.data@;
    let across = binary32::difference(data[2], data[0]);
    let down = binary32::difference(data[3], data[1]);
    if accuracy::is_finite(data[0]) && accuracy::real_of(data[0]) >= 0 as real && large.bbox.x < i32::MAX {
        lemma_doubled_scale(data[0], scale_x);
    }
    if accuracy::is_finite(data[1]) && accuracy::real_of(data[1]) >= 0 as real && large.bbox.y < i32::MAX {
        lemma_doubled_scale(data[1], scale_y);
    }
    if accuracy::is_finite(across) && accuracy::real_of(across) >= 0 as real && large.bbox.width < i32::MAX {
        lemma_doubled_scale(across, scale_x);
    }
    if accuracy::is_finite(down) && accuracy::real_of(down) >= 0 as real && large.bbox.height < i32::MAX {
        lemma_doubled_scale(down, scale_y);
    }
    assert forall|k: int|
        0 <= k < 5 && 0x80_0000 < small.landmarks@[k].0.magnitude() && accuracy::is_finite(
            small.landmarks@[k].0,
        ) implies (#[trigger] large.landmarks@[k]).0 == binary32::sum(
        small.landmarks@[k].0,
        small.landmarks@[k].0,
    ) by {
        binary32::times_a_doubled_number(data[4 + 2 * k], scale_x);
        assert(small.landmarks@[k] == small.landmarks@[k]);
    }
    assert forall|k: int|
        0 <= k < 5 && 0x80_0000 < small.landmarks@[k].1.magnitude() && accuracy::is_finite(
            small.landmarks@[k].1,
        ) implies (#[trigger] large.landmarks@[k]).1 == binary32::sum(
        small.landmarks@[k].1,
        small.landmarks@[k].1,
    ) by {
        binary32::times_a_doubled_number(data[5 + 2 * k], scale_y);
        assert(small.landmarks@[k] == small.landmarks@[k]);
    }
}

/// Each index that the suppression of overlaps names becomes one face, in order: that of the detection
/// which the candidate stands for, with box and landmarks times the picture's factors.
pub proof fn every_named_detection_becomes_a_face(
    faces: Seq<FaceDetection>,
    detections: Seq<Detection>,
    original_indices: Seq<usize>,
    indices: Seq<i32>,
    scale_x: Binary32,
    scale_y: Binary32,
)
    requires
        are_faces_of(faces, detections, original_indices, indices, scale_x, scale_y),
        forall|n: int| 0 <= n < indices.len() ==> 0 <= #[trigger] indices[n] < original_indices.len(),
    ensures
        faces.len() == indices.len(),
        forall|n: int|
            0 <= n < faces.len() ==> ({
                let d = detections[original_indices[indices[n] as int] as int];
                let face = #[trigger] faces[n];
                &&& face.confidence == d.score
                &&& face.bbox.x == binary32::truncated(binary32::product(d.data@[0], scale_x))
                &&& face.bbox.y == binary32::truncated(binary32::product(d.data@[1], scale_y))
                &&& face.bbox.width == binary32::truncated(
                    binary32::product(binary32::difference(d.data@[2], d.data@[0]), scale_x),
                )
                &&& face.bbox.height == binary32::truncated(
                    binary32::product(binary32::difference(d.data@[3], d.data@[1]), scale_y),
                )
                &&& forall|k: int|
                    0 <= k < 5 ==> #[trigger] face.landmarks@[k] == (
                        binary32::product(d.data@[4 + 2 * k], scale_x),
                        binary32::product(d.data@[5 + 2 * k], scale_y),
                    )
            }),
{
    nms::lemma_all_named(indices, original_indices);
    let keep = nms::kept(indices, original_indices);
    assert forall|n: int| 0 <= n < faces.len() implies keep[n] == original_indices[indices[n] as int] && is_face_of(
        #[trigger] faces[n],
        detections[keep[n] as int],
        scale_x,
        scale_y,
    ) by {}
}

} // verus!
