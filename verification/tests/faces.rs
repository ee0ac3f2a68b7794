use yunet_stream::binary32::Binary32;
use yunet_stream::decode::Detection;
use yunet_stream::faces::{postprocess_yunet, FaceDetection};
use yunet_stream::geometry::{Point, Rect};
use yunet_stream::nms::{boxes_fit, nms_candidates, nms_keep, CONF_THRESHOLD, NMS_THRESHOLD, TOP_K};
use yunet_stream::overlay::{draw_faces, Color, DrawCommand};

fn b(x: f32) -> Binary32 {
    Binary32::from_bits(x.to_bits())
}

fn detection(score: f32, data: [f32; 14]) -> Detection {
    Detection { score: b(score), data: data.map(b) }
}

fn boxed(score: f32, x1: f32, y1: f32, x2: f32, y2: f32) -> Detection {
    detection(score, [x1, y1, x2, y2, 1.0, 2.0, 3.0, 4.0, 5.0, 6.0, 7.0, 8.0, 9.0, 10.0])
}

#[test]
fn thresholds_are_the_decimal_ones() {
    assert_eq!(CONF_THRESHOLD, 0.7f32.to_bits());
    assert_eq!(NMS_THRESHOLD, 0.3f32.to_bits());
    assert_eq!(TOP_K, 5000);
}

#[test]
fn candidates_are_the_detections_that_pass() {
    let detections = vec![
        boxed(0.9, 10.9, 20.2, 30.7, 60.0),
        boxed(0.69999, 0.0, 0.0, 5.0, 5.0),
        boxed(0.7, -3.9, -0.5, -3.1, 0.5),
        boxed(f32::NAN, 1.0, 1.0, 4.0, 9.0),
        boxed(0.1, 0.0, 0.0, 5.0, 5.0),
        boxed(1.0, 50.0, 50.0, 40.0, 40.0),
    ];
    let threshold = Binary32::from_bits(CONF_THRESHOLD);
    assert!(boxes_fit(&detections, threshold));
    let c = nms_candidates(&detections, threshold);
    assert_eq!(c.original_indices, vec![0, 2, 3, 5]);
    assert_eq!(
        c.boxes,
        vec![
            Rect { x: 10, y: 20, width: 20, height: 40 },
            Rect { x: -3, y: 0, width: 1, height: 1 },
            Rect { x: 1, y: 1, width: 3, height: 8 },
            Rect { x: 50, y: 50, width: 1, height: 1 },
        ]
    );
    assert_eq!(c.scores[0], b(0.9));
    assert_eq!(c.scores[1], b(0.7));
    assert!(c.scores[2].not_a_number());
    assert_eq!(c.scores[3], b(1.0));
}

#[test]
fn boxes_beyond_the_integers_do_not_fit() {
    let threshold = b(0.5);
    let wide = vec![boxed(0.9, -3e9, 0.0, 3e9, 1.0)];
    assert!(!boxes_fit(&wide, threshold));
    let high = vec![boxed(0.9, 0.0, 3e9, 1.0, -3e9)];
    assert!(!boxes_fit(&high, threshold));
    let dropped = vec![boxed(0.4, -3e9, 0.0, 3e9, 1.0)];
    assert!(boxes_fit(&dropped, threshold));
    let just = vec![boxed(0.9, -1.0, 0.0, 2147483520.0, 1.0)];
    assert!(boxes_fit(&just, threshold));
}

#[test]
fn kept_indices_lead_back_to_the_detections() {
    let original = vec![0usize, 2, 3, 5];
    assert_eq!(nms_keep(&vec![3, 0], &original), vec![5, 0]);
    assert_eq!(nms_keep(&vec![1, 4, -1, 2, i32::MIN, i32::MAX], &original), vec![2, 3]);
    assert_eq!(nms_keep(&vec![0, 0], &original), vec![0, 0]);
    assert!(nms_keep(&vec![], &original).is_empty());
    assert!(nms_keep(&vec![0, 1, 2], &vec![]).is_empty());
}

#[test]
fn kept_detections_exist_pass_and_differ() {
    let detections: Vec<Detection> = (0..20).map(|i| boxed(i as f32 / 20.0, 0.0, 0.0, 9.0, 9.0)).collect();
    let threshold = b(0.33);
    let c = nms_candidates(&detections, threshold);
    let keep = nms_keep(&(-5..50).rev().collect(), &c.original_indices);
    assert_eq!(keep.len(), 13);
    for (n, &i) in keep.iter().enumerate() {
        assert!(i < detections.len());
        assert!(!detections[i].score.less_than(threshold));
        assert!(!keep[..n].contains(&i));
    }
}

#[test]
fn faces_are_scaled_to_the_picture() {
    let data = [10.25, 20.5, 30.75, 61.0, 11.5, 21.5, 12.5, 22.5, 13.5, 23.5, 14.5, 24.5, 15.5, 25.5];
    let detections = vec![boxed(0.8, 0.0, 0.0, 1.0, 1.0), detection(0.95, data)];
    let c = nms_candidates(&detections, b(0.7));
    let faces = postprocess_yunet(&detections, &c, &vec![1, 0, 7], b(2.0), b(1.5));
    assert_eq!(faces.len(), 2);
    let face = &faces[0];
    assert_eq!(face.bbox, Rect { x: 20, y: 30, width: 41, height: 60 });
    assert_eq!(face.confidence, b(0.95));
    for k in 0..5 {
        assert_eq!(face.landmarks[k], (b(data[4 + 2 * k] * 2.0), b(data[5 + 2 * k] * 1.5)));
    }
    assert_eq!(faces[1].bbox, Rect { x: 0, y: 0, width: 2, height: 1 });
}

#[test]
fn unscaled_faces_keep_their_coordinates() {
    let data = [-10.9, 20.5, 30.75, 61.0, 0.1, 0.2, 0.3, 1e-40, -0.0, 1e30, 14.5, 24.5, 15.5, 25.5];
    let detections = vec![detection(0.95, data)];
    let c = nms_candidates(&detections, b(0.7));
    let faces = postprocess_yunet(&detections, &c, &vec![0], b(1.0), b(1.0));
    assert_eq!((faces[0].bbox.x, faces[0].bbox.y), (-10, 20));
    for k in 0..5 {
        assert_eq!(faces[0].landmarks[k], (b(data[4 + 2 * k]), b(data[5 + 2 * k])));
    }
}

#[test]
fn no_detections_no_faces() {
    let none: Vec<Detection> = Vec::new();
    let c = nms_candidates(&none, b(0.7));
    assert!(c.boxes.is_empty() && c.scores.is_empty() && c.original_indices.is_empty());
    assert!(postprocess_yunet(&none, &c, &vec![0, 1, -1], b(2.0), b(2.0)).is_empty());
    assert!(draw_faces(&Vec::new()).is_empty());
}

fn face(x: i32, y: i32) -> FaceDetection {
    FaceDetection {
        bbox: Rect { x, y, width: 7, height: 8 },
        confidence: b(0.875),
        landmarks: [
            (b(1.9), b(2.1)),
            (b(-1.9), b(2.0)),
            (b(3e9), b(-3e9)),
            (b(f32::NAN), b(0.0)),
            (b(100.0), b(200.0)),
        ],
    }
}

#[test]
fn a_face_is_drawn_as_box_score_and_landmarks() {
    let green = Color { blue: 0, green: 255, red: 0 };
    let commands = draw_faces(&vec![face(40, 50)]);
    let dot = |x: i32, y: i32, blue: u8, green: u8, red: u8| DrawCommand::Dot {
        center: Point { x, y },
        radius: 2,
        color: Color { blue, green, red },
    };
    assert_eq!(
        commands,
        vec![
            DrawCommand::Rectangle {
                area: Rect { x: 40, y: 50, width: 7, height: 8 },
                color: green,
                thickness: 2
            },
            DrawCommand::Score {
                confidence: b(0.875),
                origin: Point { x: 40, y: 45 },
                color: green,
                thickness: 1
            },
            dot(1, 2, 0, 0, 255),
            dot(-1, 2, 255, 0, 0),
            dot(i32::MAX, i32::MIN, 0, 255, 255),
            dot(0, 0, 255, 0, 255),
            dot(100, 200, 255, 255, 0),
        ]
    );
}

#[test]
fn scores_stay_inside_the_picture() {
    for (y, expected) in [(50, 45), (16, 11), (15, 10), (14, 10), (0, 10), (-100, 10), (i32::MIN + 5, 10)] {
        let commands = draw_faces(&vec![face(3, y)]);
        assert!(matches!(
            commands[1],
            DrawCommand::Score { origin: Point { x: 3, y }, .. } if y == expected
        ));
    }
}

#[test]
fn each_face_has_its_own_commands() {
    let faces = vec![face(1, 20), face(2, 30), face(3, 40)];
    let all = draw_faces(&faces);
    assert_eq!(all.len(), 21);
    for (i, one) in faces.iter().enumerate() {
        assert_eq!(all[7 * i..7 * i + 7], draw_faces(&vec![*one])[..]);
    }
}

#[test]
fn kept_detections_are_candidates_again() {
    let detections = vec![
        boxed(0.9, 10.0, 20.0, 30.0, 60.0),
        boxed(0.2, 0.0, 0.0, 5.0, 5.0),
        boxed(0.8, 11.0, 21.0, 31.0, 61.0),
        boxed(0.75, 90.0, 90.0, 99.0, 99.0),
    ];
    let threshold = Binary32::from_bits(CONF_THRESHOLD);
    let first = nms_candidates(&detections, threshold);
    let keep = nms_keep(&vec![0, 2], &first.original_indices);
    assert_eq!(keep, vec![0, 3]);
    let left: Vec<Detection> = keep.iter().map(|&i| detections[i]).collect();
    let again = nms_candidates(&left, threshold);
    assert_eq!(again.original_indices, vec![0, 1]);
    assert_eq!(again.boxes, vec![first.boxes[0], first.boxes[2]]);
    assert_eq!(again.scores, vec![first.scores[0], first.scores[2]]);
    assert_eq!(nms_keep(&vec![0, 1], &again.original_indices), vec![0, 1]);
}

#[test]
fn neither_order_nor_landmarks_change_what_is_kept() {
    let a = vec![
        boxed(0.9, 10.0, 20.0, 30.0, 60.0),
        boxed(0.2, 0.0, 0.0, 5.0, 5.0),
        boxed(0.8, 90.0, 90.0, 99.0, 99.0),
    ];
    let other = vec![a[2], a[0], a[1]];
    let threshold = Binary32::from_bits(CONF_THRESHOLD);
    let (ca, cb) = (nms_candidates(&a, threshold), nms_candidates(&other, threshold));
    assert_eq!((ca.boxes[0], ca.boxes[1]), (cb.boxes[1], cb.boxes[0]));
    let (ka, kb) = (nms_keep(&vec![0, 1], &ca.original_indices), nms_keep(&vec![1, 0], &cb.original_indices));
    for (i, j) in ka.iter().zip(&kb) {
        assert!(a[*i].score == other[*j].score && a[*i].data == other[*j].data);
    }
    let moved: Vec<Detection> = a
        .iter()
        .map(|d| {
            let mut data = d.data;
            data[4..].fill(b(77.0));
            Detection { score: d.score, data }
        })
        .collect();
    let cm = nms_candidates(&moved, threshold);
    assert_eq!((cm.boxes, cm.scores, cm.original_indices), (ca.boxes, ca.scores, ca.original_indices));
}
