use crate::binary32;
use crate::binary32::Binary32;
use crate::decode::Detection;
use crate::geometry;
use crate::geometry::Rect;
use crate::rearrangement;
use crate::selection;
use vstd::prelude::*;

verus! {

/// At most this many boxes are picked when overlaps are suppressed.
pub const TOP_K: i32 = 5000;

/// The bits of 0.7, the score below which a detection is not drawn.
pub const CONF_THRESHOLD: u32 = 0x3f33_3333;

/// The bits of 0.3, the overlap above which the weaker of two boxes is suppressed.
pub const NMS_THRESHOLD: u32 = 0x3e99_999a;

/// What takes part in the suppression of overlapping boxes. The three lists run in parallel.
#[derive(Debug)]
pub struct Candidates {
    /// The boxes, in whole pixels.
    pub boxes: Vec<Rect>,
    /// Their scores.
    pub scores: Vec<Binary32>,
    /// Where each stands among the detections.
    pub original_indices: Vec<usize>,
}

/// The detection takes part: its score is not below the threshold.
pub open spec fn passes(detections: Seq<Detection>, threshold: Binary32, i: int) -> bool {
    !binary32::less(detections[i].score, threshold)
}

/// The detections that take part, in order.
pub open spec fn passing(detections: Seq<Detection>, threshold: Binary32) -> Seq<int> {
    selection::chosen(detections.len(), |i: int| passes(detections, threshold, i))
}

/// How far right of the left edge the right one is, and how far below the top the bottom, once
/// the edges are cut to whole pixels.
pub open spec fn span(data: Seq<Binary32>) -> (int, int) {
    (
        binary32::truncated(data[2]) - binary32::truncated(data[0]),
        binary32::truncated(data[3]) - binary32::truncated(data[1]),
    )
}

/// The span of the box is within `i32`.
pub open spec fn span_fits(data: Seq<Binary32>) -> bool {
    i32::MIN <= span(data).0 <= i32::MAX && i32::MIN <= span(data).1 <= i32::MAX
}

/// The box is the detection's, in whole pixels, and at least one pixel wide and high.
pub open spec fn is_box_of(r: Rect, data: Seq<Binary32>) -> bool {
    &&& r.x == binary32::truncated(data[0])
    &&& r.y == binary32::truncated(data[1])
    &&& r.width == geometry::larger(span(data).0, 1)
    &&& r.height == geometry::larger(span(data).1, 1)
}

/// The candidates are those of the detections that pass the threshold.
pub open spec fn are_candidates_of(c: Candidates, detections: Seq<Detection>, threshold: Binary32) -> bool {
    let all = passing(detections, threshold);
    &&& c.original_indices@.len() == all.len()
    &&& c.boxes@.len() == all.len()
    &&& c.scores@.len() == all.len()
    &&& forall|j: int| 0 <= j < all.len() ==> #[trigger] c.original_indices@[j] == all[j]
    &&& forall|j: int| 0 <= j < all.len() ==> is_box_of(#[trigger] c.boxes@[j], detections[all[j]].data@)
    &&& forall|j: int| 0 <= j < all.len() ==> #[trigger] c.scores@[j] == detections[all[j]].score
}

fn at_least_one(v: i32) -> (r: i32)
    ensures
        r == geometry::larger(v as int, 1),
{
    if v < 1 {
        1
    } else {
        v
    }
}

/// Whether every detection that passes the threshold has a box whose span is within `i32`, as
/// [`nms_candidates`] asks.
pub fn boxes_fit(detections: &Vec<Detection>, conf_threshold: Binary32) -> (r: bool)
    ensures
        r == forall|i: int|
            0 <= i < detections@.len() && passes(detections@, conf_threshold, i) ==> span_fits(
                (#[trigger] detections@[i]).data@,
            ),
{
    let mut i: usize = 0;
    while i < detections.len()
        invariant
            i <= detections@.len(),
            forall|k: int|
                0 <= k < i && passes(detections@, conf_threshold, k) ==> span_fits((#[trigger] detections@[k]).data@),
        decreases detections@.len() - i,
    {
        if !detections[i].score.less_than(conf_threshold) {
            let data = detections[i].data;
            let across: i64 = data[2].to_i32() as i64 - data[0].to_i32() as i64;
            let down: i64 = data[3].to_i32() as i64 - data[1].to_i32() as i64;
            if across < i32::MIN as i64 || across > i32::MAX as i64 || down < i32::MIN as i64 || down
                > i32::MAX as i64 {
                assert(!span_fits(detections@[i as int].data@));
                return false;
            }
        }
        i = i + 1;
    }
    true
}

/// The boxes and scores that are handed to the suppression of overlaps.
pub fn nms_candidates(detections: &Vec<Detection>, conf_threshold: Binary32) -> (r: Candidates)
    requires
        forall|i: int|
            0 <= i < detections@.len() && passes(detections@, conf_threshold, i) ==> span_fits(
                (#[trigger] detections@[i]).data@,
            ),
    ensures
        are_candidates_of(r, detections@, conf_threshold),
{
    let ghost wanted = |i: int| passes(detections@, conf_threshold, i);
    let ghost all = passing(detections@, conf_threshold);
    let mut boxes: Vec<Rect> = Vec::new();
    let mut scores: Vec<Binary32> = Vec::new();
    let mut original_indices: Vec<usize> = Vec::new();
    let mut i: usize = 0;
    while i < detections.len()
        invariant
            i <= detections@.len(),
            wanted == (|i: int| passes(detections@, conf_threshold, i)),
            all == selection::chosen(detections@.len(), wanted),
            forall|i: int|
                0 <= i < detections@.len() && passes(detections@, conf_threshold, i) ==> span_fits(
                    (#[trigger] detections@[i]).data@,
                ),
            original_indices@.len() == selection::chosen(i as nat, wanted).len(),
            boxes@.len() == original_indices@.len(),
            scores@.len() == original_indices@.len(),
            forall|j: int| 0 <= j < original_indices@.len() ==> #[trigger] original_indices@[j] == all[j],
            forall|j: int| 0 <= j < boxes@.len() ==> is_box_of(#[trigger] boxes@[j], detections@[all[j]].data@),
            forall|j: int| 0 <= j < scores@.len() ==> #[trigger] scores@[j] == detections@[all[j]].score,
        decreases detections@.len() - i,
    {
        proof {
            selection::chosen_extends((i + 1) as nat, detections@.len(), wanted);
        }
        let score = detections[i].score;
        if !score.less_than(conf_threshold) {
            proof {
                assert(wanted(i as int));
                let j = original_indices@.len() as int;
                assert(selection::chosen((i + 1) as nat, wanted)[j] == i);
                assert(all[j] == i);
                assert(span_fits(detections@[i as int].data@));
            }
            let data = detections[i].data;
            let x1: i32 = data[0].to_i32();
            let y1: i32 = data[1].to_i32();
            let x2: i32 = data[2].to_i32();
            let y2: i32 = data[3].to_i32();
            boxes.push(Rect { x: x1, y: y1, width: at_least_one(x2 - x1), height: at_least_one(y2 - y1) });
            scores.push(score);
            original_indices.push(i);
        } else {
            assert(!wanted(i as int));
        }
        i = i + 1;
    }
    Candidates { boxes, scores, original_indices }
}

/// What an index among the candidates stands for among the detections; nothing where there is no
/// such candidate.
pub open spec fn named(index: i32, original_indices: Seq<usize>) -> Option<usize> {
    if 0 <= index < original_indices.len() {
        Some(original_indices[index as int])
    } else {
        None
    }
}

/// The detections that the suppression of overlaps left, in the order in which it named them.
pub open spec fn kept(indices: Seq<i32>, original_indices: Seq<usize>) -> Seq<usize> {
    indices.filter_map(|i: i32| named(i, original_indices))
}

/// Turns the indices that the suppression of overlaps gave into indices among the detections.
/// Those that name no candidate are passed over.
pub fn nms_keep(indices: &Vec<i32>, original_indices: &Vec<usize>) -> (r: Vec<usize>)
    ensures
        r@ == kept(indices@, original_indices@),
{
    let ghost f = |i: i32| named(i, original_indices@);
    let mut keep: Vec<usize> = Vec::new();
    let mut n: usize = 0;
    assert(indices@.take(0) =~= Seq::<i32>::empty());
    while n < indices.len()
        invariant
            n <= indices@.len(),
            f == (|i: i32| named(i, original_indices@)),
            keep@ == indices@.take(n as int).filter_map(f),
        decreases indices@.len() - n,
    {
        proof {
            assert(indices@.take(n + 1).drop_last() =~= indices@.take(n as int));
            assert(indices@.take(n + 1).last() == indices@[n as int]);
        }
        let i: i32 = indices[n];
        if i >= 0 && (i as usize) < original_indices.len() {
            keep.push(original_indices[i as usize]);
            assert(keep@ =~= indices@.take(n + 1).filter_map(f));
        } else {
            assert(keep@ =~= indices@.take(n + 1).filter_map(f));
        }
        n = n + 1;
    }
    assert(indices@.take(indices@.len() as int) =~= indices@);
    keep
}

/// Whatever indices the suppression of overlaps gives, each detection that is kept exists and
/// passes the threshold.
pub proof fn kept_detections_pass(
    detections: Seq<Detection>,
    threshold: Binary32,
    candidates: Candidates,
    indices: Seq<i32>,
)
    requires
        are_candidates_of(candidates, detections, threshold),
    ensures
        forall|n: int|
            0 <= n < kept(indices, candidates.original_indices@).len() ==> {
                &&& (#[trigger] kept(indices, candidates.original_indices@)[n]) < detections.len()
                &&& passes(detections, threshold, kept(indices, candidates.original_indices@)[n] as int)
            },
    decreases indices.len(),
{
    let wanted = |i: int| passes(detections, threshold, i);
    let all = passing(detections, threshold);
    selection::chosen_are_wanted(detections.len(), wanted);
    let f = |i: i32| named(i, candidates.original_indices@);
    if indices.len() > 0 {
        kept_detections_pass(detections, threshold, candidates, indices.drop_last());
        let before = kept(indices.drop_last(), candidates.original_indices@);
        let now = kept(indices, candidates.original_indices@);
        assert forall|n: int| 0 <= n < now.len() implies (#[trigger] now[n]) < detections.len() && passes(
            detections,
            threshold,
            now[n] as int,
        ) by {
            if n < before.len() {
                assert(now[n] == before[n]);
            } else {
                let j = indices.last() as int;
                assert(now[n] == candidates.original_indices@[j]);
                assert(now[n] == all[j]);
                assert(wanted(all[j]));
            }
        }
    }
}

/// Where there is nothing to suppress, nothing is kept, whatever indices come back.
pub proof fn nothing_kept_of_nothing(
    detections: Seq<Detection>,
    threshold: Binary32,
    candidates: Candidates,
    indices: Seq<i32>,
)
    requires
        detections.len() == 0,
        are_candidates_of(candidates, detections, threshold),
    ensures
        kept(indices, candidates.original_indices@).len() == 0,
{
    kept_detections_pass(detections, threshold, candidates, indices);
    if kept(indices, candidates.original_indices@).len() > 0 {
        assert(kept(indices, candidates.original_indices@)[0] < detections.len());
    }
}

/// Each detection that is kept was named by one of the indices.
pub proof fn kept_was_named(indices: Seq<i32>, original_indices: Seq<usize>, n: int)
    requires
        0 <= n < kept(indices, original_indices).len(),
    ensures
        exists|m: int|
            0 <= m < indices.len() && named(#[trigger] indices[m], original_indices) == Some(
                kept(indices, original_indices)[n],
            ),
    decreases indices.len(),
{
    let before = kept(indices.drop_last(), original_indices);
    if n < before.len() {
        kept_was_named(indices.drop_last(), original_indices, n);
        let m = choose|m: int|
            0 <= m < indices.drop_last().len() && named(#[trigger] indices.drop_last()[m], original_indices)
                == Some(before[n]);
        assert(indices[m] == indices.drop_last()[m]);
    } else {
        assert(named(indices[indices.len() - 1], original_indices) == Some(kept(indices, original_indices)[n]));
    }
}

/// Where the suppression of overlaps names no index twice, no detection is kept twice.
pub proof fn kept_detections_differ(
    detections: Seq<Detection>,
    threshold: Binary32,
    candidates: Candidates,
    indices: Seq<i32>,
)
    requires
        are_candidates_of(candidates, detections, threshold),
        indices.no_duplicates(),
    ensures
        kept(indices, candidates.original_indices@).no_duplicates(),
    decreases indices.len(),
{
    let places = candidates.original_indices@;
    let all = passing(detections, threshold);
    selection::chosen_are_wanted(detections.len(), |i: int| passes(detections, threshold, i));
    if indices.len() > 0 {
        let rest = indices.drop_last();
        let before = kept(rest, places);
        let now = kept(indices, places);
        kept_detections_differ(detections, threshold, candidates, rest);
        assert forall|a: int, b: int| 0 <= a < b < now.len() implies now[a] != now[b] by {
            assert(now[a] == before[a]);
            if b < before.len() {
                assert(now[b] == before[b]);
            } else {
                kept_was_named(rest, places, a);
                let m = choose|m: int|
                    0 <= m < rest.len() && named(#[trigger] rest[m], places) == Some(before[a]);
                let last = indices.last();
                assert(rest[m] != last);
                assert(now[b] == places[last as int]);
                let (i, j) = (rest[m] as int, last as int);
                assert(places[i] == all[i] && places[j] == all[j]);
                assert(i < j ==> all[i] < all[j]);
                assert(j < i ==> all[j] < all[i]);
            }
        }
    }
}

pub(crate) proof fn lemma_all_named(indices: Seq<i32>, original_indices: Seq<usize>)
    requires
        forall|n: int| 0 <= n < indices.len() ==> 0 <= #[trigger] indices[n] < original_indices.len(),
    ensures
        kept(indices, original_indices).len() == indices.len(),
        forall|n: int|
            0 <= n < indices.len() ==> #[trigger] kept(indices, original_indices)[n]
                == original_indices[indices[n] as int],
    decreases indices.len(),
{
    if indices.len() > 0 {
        let rest = indices.drop_last();
        assert forall|n: int| 0 <= n < rest.len() implies 0 <= #[trigger] rest[n] < original_indices.len() by {
            assert(rest[n] == indices[n]);
        }
        lemma_all_named(rest, original_indices);
        let last = indices[indices.len() - 1];
        assert(0 <= last < original_indices.len());
        assert(kept(indices, original_indices) =~= kept(rest, original_indices) + seq![
            original_indices[last as int],
        ]);
        assert forall|n: int| 0 <= n < indices.len() implies #[trigger] kept(indices, original_indices)[n]
            == original_indices[indices[n] as int] by {
            if n < rest.len() {
                assert(kept(rest, original_indices)[n] == original_indices[rest[n] as int]);
            }
        }
    }
}

/// The detections that are kept, in the order in which they are named.
pub open spec fn detections_kept(detections: Seq<Detection>, keep: Seq<usize>) -> Seq<Detection> {
    keep.map_values(|i: usize| detections[i as int])
}

/// Detections that were kept take part in a second suppression, all of them, in order, and with the
/// boxes and scores that they had.
pub proof fn kept_take_part_again(
    detections: Seq<Detection>,
    threshold: Binary32,
    candidates: Candidates,
    indices: Seq<i32>,
    again: Candidates,
)
    requires
        are_candidates_of(candidates, detections, threshold),
        are_candidates_of(
            again,
            detections_kept(detections, kept(indices, candidates.original_indices@)),
            threshold,
        ),
    ensures
        again.original_indices@.len() == kept(indices, candidates.original_indices@).len(),
        again.boxes@.len() == again.original_indices@.len(),
        again.scores@.len() == again.original_indices@.len(),
        forall|n: int| 0 <= n < again.original_indices@.len() ==> #[trigger] again.original_indices@[n] == n,
        forall|n: int|
            0 <= n < again.boxes@.len() ==> is_box_of(
                #[trigger] again.boxes@[n],
                detections[kept(indices, candidates.original_indices@)[n] as int].data@,
            ),
        forall|n: int|
            0 <= n < again.scores@.len() ==> #[trigger] again.scores@[n] == detections[kept(
                indices,
                candidates.original_indices@,
            )[n] as int].score,
{
    let keep = kept(indices, candidates.original_indices@);
    let left = detections_kept(detections, keep);
    let wanted = |i: int| passes(left, threshold, i);
    kept_detections_pass(detections, threshold, candidates, indices);
    assert forall|i: int| 0 <= i < left.len() implies #[trigger] wanted(i) by {
        assert(passes(detections, threshold, keep[i] as int));
        assert(left[i] == detections[keep[i] as int]);
    }
    selection::all_are_chosen(left.len(), wanted);
    let all = passing(left, threshold);
    assert forall|n: int| 0 <= n < keep.len() implies all[n] == n && left[n] == detections[keep[n] as int] by {}
}

/// What a second suppression names is what it keeps: where it names all that is left, in order, it
/// removes nothing and reorders nothing.
pub proof fn suppressing_again_keeps_what_it_names(
    detections: Seq<Detection>,
    threshold: Binary32,
    candidates: Candidates,
    indices: Seq<i32>,
    again: Candidates,
    named_again: Seq<i32>,
)
    requires
        are_candidates_of(candidates, detections, threshold),
        are_candidates_of(
            again,
            detections_kept(detections, kept(indices, candidates.original_indices@)),
            threshold,
        ),
        forall|n: int| 0 <= n < named_again.len() ==> 0 <= #[trigger] named_again[n] < again.boxes@.len(),
    ensures
        kept(named_again, again.original_indices@).len() == named_again.len(),
        forall|n: int|
            0 <= n < named_again.len() ==> #[trigger] kept(named_again, again.original_indices@)[n] == named_again[n],
{
    kept_take_part_again(detections, threshold, candidates, indices, again);
    lemma_all_named(named_again, again.original_indices@);
}

/// The box that stands for a detection.
pub open spec fn box_of(data: Seq<Binary32>) -> Rect {
    Rect {
        x: binary32::truncated(data[0]) as i32,
        y: binary32::truncated(data[1]) as i32,
        width: geometry::larger(span(data).0, 1) as i32,
        height: geometry::larger(span(data).1, 1) as i32,
    }
}

/// What is handed to the suppression of overlaps for a detection; nothing where it does not take
/// part.
pub open spec fn handed(detection: Detection, threshold: Binary32) -> Option<(Rect, Binary32)> {
    if binary32::less(detection.score, threshold) {
        None
    } else {
        Some((box_of(detection.data@), detection.score))
    }
}

/// The boxes of candidates, each with its score.
pub open spec fn scored_boxes(candidates: Candidates) -> Seq<(Rect, Binary32)> {
    Seq::new(candidates.boxes@.len(), |j: int| (candidates.boxes@[j], candidates.scores@[j]))
}

/// The first detections' share of what is handed over.
proof fn lemma_handed(detections: Seq<Detection>, threshold: Binary32, n: nat)
    requires
        n <= detections.len(),
    ensures
        detections.take(n as int).filter_map(|d: Detection| handed(d, threshold)) == selection::chosen(
            n,
            |i: int| passes(detections, threshold, i),
        ).map_values(|i: int| (box_of(detections[i].data@), detections[i].score)),
    decreases n,
{
    let f = |d: Detection| handed(d, threshold);
    let wanted = |i: int| passes(detections, threshold, i);
    let g = |i: int| (box_of(detections[i].data@), detections[i].score);
    if n == 0 {
        assert(detections.take(0).filter_map(f) =~= selection::chosen(0, wanted).map_values(g));
    } else {
        let m = (n - 1) as nat;
        lemma_handed(detections, threshold, m);
        let now = detections.take(n as int);
        assert(now.drop_last() =~= detections.take(m as int));
        assert(now.last() == detections[m as int]);
        let before = selection::chosen(m, wanted);
        if wanted(m as int) {
            assert(f(now.last()) == Some(g(m as int)));
            assert(before.push(m as int).map_values(g) =~= before.map_values(g) + seq![g(m as int)]);
        } else {
            assert(f(now.last()) is None);
        }
    }
}

/// What is handed to the suppression of overlaps, detection by detection: a box and a score for
/// each that takes part. Landmarks have no part in it.
pub proof fn each_detection_is_handed_over(detections: Seq<Detection>, threshold: Binary32, candidates: Candidates)
    requires
        are_candidates_of(candidates, detections, threshold),
    ensures
        scored_boxes(candidates) == detections.filter_map(|d: Detection| handed(d, threshold)),
{
    lemma_handed(detections, threshold, detections.len());
    assert(detections.take(detections.len() as int) =~= detections);
    let all = passing(detections, threshold);
    let g = |i: int| (box_of(detections[i].data@), detections[i].score);
    assert forall|j: int| 0 <= j < all.len() implies scored_boxes(candidates)[j] == g(all[j]) by {
        assert(is_box_of(candidates.boxes@[j], detections[all[j]].data@));
        assert(candidates.scores@[j] == detections[all[j]].score);
    }
    assert(scored_boxes(candidates) =~= all.map_values(g));
}

/// Detections that differ in nothing but their landmarks have the same candidates.
pub proof fn landmarks_take_no_part(
    a: Seq<Detection>,
    b: Seq<Detection>,
    threshold: Binary32,
    candidates_a: Candidates,
    candidates_b: Candidates,
)
    requires
        a.len() == b.len(),
        forall|i: int| 0 <= i < a.len() ==> (#[trigger] a[i]).score == b[i].score,
        forall|i: int| 0 <= i < a.len() ==> (#[trigger] a[i]).data@.take(4) == b[i].data@.take(4),
        are_candidates_of(candidates_a, a, threshold),
        are_candidates_of(candidates_b, b, threshold),
    ensures
        candidates_a.boxes@ == candidates_b.boxes@,
        candidates_a.scores@ == candidates_b.scores@,
        candidates_a.original_indices@ == candidates_b.original_indices@,
{
    let wanted_a = |i: int| passes(a, threshold, i);
    let wanted_b = |i: int| passes(b, threshold, i);
    assert forall|i: int| 0 <= i < a.len() implies #[trigger] wanted_a(i) == wanted_b(i) by {
        assert(a[i].score == b[i].score);
    }
    selection::same_are_chosen(a.len(), wanted_a, wanted_b);
    selection::chosen_are_wanted(a.len(), wanted_a);
    let all = passing(a, threshold);
    assert(all == passing(b, threshold));
    assert forall|j: int| 0 <= j < all.len() implies candidates_a.boxes@[j] == candidates_b.boxes@[j]
        && candidates_a.scores@[j] == candidates_b.scores@[j] && candidates_a.original_indices@[j]
        == candidates_b.original_indices@[j] by {
        let i = all[j];
        assert(a[i].score == b[i].score);
        assert forall|c: int| 0 <= c < 4 implies a[i].data@[c] == b[i].data@[c] by {
            assert(a[i].data@[c] == a[i].data@.take(4)[c]);
            assert(b[i].data@[c] == b[i].data@.take(4)[c]);
        }
        assert(is_box_of(candidates_a.boxes@[j], a[i].data@));
        assert(is_box_of(candidates_b.boxes@[j], b[i].data@));
        assert(candidates_a.original_indices@[j] == all[j]);
        assert(candidates_b.original_indices@[j] == all[j]);
        assert(candidates_a.scores@[j] == a[i].score);
        assert(candidates_b.scores@[j] == b[i].score);
    }
    assert(candidates_a.boxes@ =~= candidates_b.boxes@);
    assert(candidates_a.scores@ =~= candidates_b.scores@);
    assert(candidates_a.original_indices@ =~= candidates_b.original_indices@);
}

/// The same detections in another order hand over the same boxes and scores, each as often.
pub proof fn order_changes_no_candidate(
    a: Seq<Detection>,
    b: Seq<Detection>,
    threshold: Binary32,
    candidates_a: Candidates,
    candidates_b: Candidates,
)
    requires
        a.to_multiset() == b.to_multiset(),
        are_candidates_of(candidates_a, a, threshold),
        are_candidates_of(candidates_b, b, threshold),
    ensures
        scored_boxes(candidates_a).to_multiset() == scored_boxes(candidates_b).to_multiset(),
{
    each_detection_is_handed_over(a, threshold, candidates_a);
    each_detection_is_handed_over(b, threshold, candidates_b);
    rearrangement::made_of_the_same_items(a, b, |d: Detection| handed(d, threshold));
}

/// Of the same detections in another order, the same are kept and in the same order, where the
/// suppression of overlaps names candidates of the same scores and no two detections share one.
pub proof fn order_changes_nothing_kept(
    a: Seq<Detection>,
    b: Seq<Detection>,
    threshold: Binary32,
    candidates_a: Candidates,
    candidates_b: Candidates,
    indices_a: Seq<i32>,
    indices_b: Seq<i32>,
)
    requires
        a.to_multiset() == b.to_multiset(),
        forall|i: int, j: int| 0 <= i < j < a.len() ==> (#[trigger] a[i]).score != (#[trigger] a[j]).score,
        are_candidates_of(candidates_a, a, threshold),
        are_candidates_of(candidates_b, b, threshold),
        indices_a.len() == indices_b.len(),
        forall|n: int| 0 <= n < indices_a.len() ==> 0 <= #[trigger] indices_a[n] < candidates_a.scores@.len(),
        forall|n: int| 0 <= n < indices_b.len() ==> 0 <= #[trigger] indices_b[n] < candidates_b.scores@.len(),
        forall|n: int|
            0 <= n < indices_a.len() ==> candidates_a.scores@[#[trigger] indices_a[n] as int]
                == candidates_b.scores@[indices_b[n] as int],
    ensures
        detections_kept(a, kept(indices_a, candidates_a.original_indices@)) == detections_kept(
            b,
            kept(indices_b, candidates_b.original_indices@),
        ),
{
    broadcast use vstd::seq_lib::group_to_multiset_ensures;

    let keep_a = kept(indices_a, candidates_a.original_indices@);
    let keep_b = kept(indices_b, candidates_b.original_indices@);
    lemma_all_named(indices_a, candidates_a.original_indices@);
    lemma_all_named(indices_b, candidates_b.original_indices@);
    kept_detections_pass(a, threshold, candidates_a, indices_a);
    kept_detections_pass(b, threshold, candidates_b, indices_b);
    let all_a = passing(a, threshold);
    let all_b = passing(b, threshold);
    assert forall|n: int| 0 <= n < keep_a.len() implies a[keep_a[n] as int] == b[keep_b[n] as int] by {
        let (ia, ib) = (indices_a[n] as int, indices_b[n] as int);
        assert(keep_a[n] == candidates_a.original_indices@[ia]);
        assert(keep_b[n] == candidates_b.original_indices@[ib]);
        assert(candidates_a.scores@[ia] == a[all_a[ia]].score);
        assert(candidates_b.scores@[ib] == b[all_b[ib]].score);
        let (i, d) = (keep_a[n] as int, b[keep_b[n] as int]);
        assert(b.contains(d));
        assert(a.to_multiset().count(d) > 0);
        assert(a.contains(d));
        let j = choose|j: int| 0 <= j < a.len() && a[j] == d;
        assert(a[i].score == a[j].score);
        assert(i == j);
    }
    assert(detections_kept(a, keep_a) =~= detections_kept(b, keep_b));
}

/// A side of a box runs from one edge of the detection, cut to whole pixels, to the other, and is one
/// pixel long where that leads nowhere.
pub open spec fn is_side(start: i32, length: i32, from: Binary32, to: Binary32) -> bool {
    &&& start == binary32::truncated(from)
    &&& binary32::truncated(to) > binary32::truncated(from) ==> start + length == binary32::truncated(to)
    &&& binary32::truncated(to) <= binary32::truncated(from) ==> length == 1
}

/// What is handed to the suppression of overlaps: for each detection whose score is not below the
/// threshold, and for no other, once and in order, its score and a box from its left and top edge to
/// its right and bottom edge.
pub proof fn candidates_reach_from_edge_to_edge(
    detections: Seq<Detection>,
    threshold: Binary32,
    candidates: Candidates,
)
    requires
        are_candidates_of(candidates, detections, threshold),
    ensures
        candidates.boxes@.len() == candidates.original_indices@.len(),
        candidates.scores@.len() == candidates.original_indices@.len(),
        forall|j: int|
            0 <= j < candidates.original_indices@.len() ==> ({
                let d = detections[#[trigger] candidates.original_indices@[j] as int];
                let (b, e) = (candidates.boxes@[j], d.data@);
                &&& candidates.original_indices@[j] < detections.len()
                &&& candidates.scores@[j] == d.score
                &&& is_side(b.x, b.width, e[0], e[2])
                &&& is_side(b.y, b.height, e[1], e[3])
                &&& d.score.is_nan() || threshold.is_nan() || d.score.value() >= threshold.value()
            }),
        forall|j: int, k: int|
            0 <= j < k < candidates.original_indices@.len() ==> (#[trigger] candidates.original_indices@[j]) < (
            #[trigger] candidates.original_indices@[k]),
        forall|i: usize|
            #![trigger detections[i as int]]
            i < detections.len() && (detections[i as int].score.is_nan() || threshold.is_nan()
                || detections[i as int].score.value() >= threshold.value())
                ==> candidates.original_indices@.contains(i),
{
    let wanted = |i: int| passes(detections, threshold, i);
    let all = passing(detections, threshold);
    let places = candidates.original_indices@;
    selection::chosen_are_wanted(detections.len(), wanted);
    assert forall|j: int| 0 <= j < places.len() implies ({
        let d = detections[#[trigger] places[j] as int];
        let (b, e) = (candidates.boxes@[j], d.data@);
        &&& places[j] < detections.len()
        &&& candidates.scores@[j] == d.score
        &&& is_side(b.x, b.width, e[0], e[2])
        &&& is_side(b.y, b.height, e[1], e[3])
        &&& d.score.is_nan() || threshold.is_nan() || d.score.value() >= threshold.value()
    }) by {
        assert(places[j] == all[j]);
        assert(wanted(all[j]));
        assert(is_box_of(candidates.boxes@[j], detections[all[j]].data@));
        assert(candidates.scores@[j] == detections[all[j]].score);
        reveal(binary32::less);
    }
    assert forall|j: int, k: int| 0 <= j < k < places.len() implies (#[trigger] places[j]) < (#[trigger] places[k]) by {
        assert(places[j] == all[j] && places[k] == all[k]);
        assert(all[j] < all[k]);
    }
    assert forall|i: usize|
        #![trigger detections[i as int]]
        i < detections.len() && (detections[i as int].score.is_nan() || threshold.is_nan()
            || detections[i as int].score.value() >= threshold.value()) implies places.contains(i) by {
        reveal(binary32::less);
        assert(wanted(i as int));
        selection::wanted_are_chosen(detections.len(), wanted, i as int);
        let j = choose|j: int| 0 <= j < all.len() && all[j] == i as int;
        assert(places[j] == all[j]);
    }
}

/// Indices are looked up one after another: one that names a candidate adds the detection it stands
/// for, and any other adds nothing.
pub proof fn indices_are_looked_up_in_order(indices: Seq<i32>, original_indices: Seq<usize>, index: i32)
    ensures
        kept(Seq::empty(), original_indices) == Seq::<usize>::empty(),
        0 <= index < original_indices.len() ==> kept(indices.push(index), original_indices) == kept(
            indices,
            original_indices,
        ).push(original_indices[index as int]),
        index < 0 || index >= original_indices.len() ==> kept(indices.push(index), original_indices) == kept(
            indices,
            original_indices,
        ),
{
    let more = indices.push(index);
    assert(more.drop_last() =~= indices);
    assert(more.last() == index);
    if 0 <= index < original_indices.len() {
        assert(kept(more, original_indices) =~= kept(indices, original_indices).push(original_indices[index as int]));
    }
}

/// Which boxes fit: those whose sides, from edge to edge in whole pixels, can be held in `i32`. Boxes
/// within a billion pixels of the corner always do.
pub proof fn boxes_of_ordinary_size_fit(data: Seq<Binary32>)
    ensures
        span_fits(data) <==> -0x8000_0000 <= binary32::truncated(data[2]) - binary32::truncated(data[0])
            <= 0x7fff_ffff && -0x8000_0000 <= binary32::truncated(data[3]) - binary32::truncated(data[1])
            <= 0x7fff_ffff,
        (forall|c: int| 0 <= c < 4 ==> -0x4000_0000 < #[trigger] binary32::truncated(data[c]) < 0x4000_0000)
            ==> span_fits(data),
{
    if forall|c: int| 0 <= c < 4 ==> -0x4000_0000 < #[trigger] binary32::truncated(data[c]) < 0x4000_0000 {
        assert(-0x4000_0000 < binary32::truncated(data[0]) < 0x4000_0000);
        assert(-0x4000_0000 < binary32::truncated(data[1]) < 0x4000_0000);
        assert(-0x4000_0000 < binary32::truncated(data[2]) < 0x4000_0000);
        assert(-0x4000_0000 < binary32::truncated(data[3]) < 0x4000_0000);
    }
}

} // verus!
