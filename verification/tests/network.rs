use yunet_stream::binary32::Binary32;
use yunet_stream::decode::{decode, log_growths, rows_found, CENTER_VARIANCE, LEAST_SCORE, SIZE_VARIANCE};
use yunet_stream::preprocess::preprocess;
use yunet_stream::priors::{generate_priors, INPUT_HEIGHT, INPUT_WIDTH};
use yunet_stream::tensor::{Matrix, Tensor};

fn f(v: Binary32) -> f32 {
    f32::from_bits(v.bits)
}

fn matrix(rows: &[Vec<f32>]) -> Matrix {
    let columns = if rows.is_empty() { 0 } else { rows[0].len() };
    let values = rows.iter().flatten().map(|v| v.to_bits()).collect();
    Matrix::from_rows(rows.len(), columns, values).unwrap()
}

fn expected_priors(input_w: i32, input_h: i32) -> Vec<[f32; 4]> {
    let steps = [8, 16, 32];
    let sizes: [&[f32]; 3] = [&[10.0, 16.0, 24.0], &[32.0, 48.0], &[64.0, 96.0]];
    let mut all = Vec::new();
    for level in 0..3 {
        let step = steps[level] as f32;
        let down = (input_h as f32 / step).ceil() as i32;
        let across = (input_w as f32 / step).ceil() as i32;
        for i in 0..down {
            for j in 0..across {
                for size in sizes[level] {
                    all.push([
                        (j as f32 + 0.5) * step / input_w as f32,
                        (i as f32 + 0.5) * step / input_h as f32,
                        size / input_w as f32,
                        size / input_h as f32,
                    ]);
                }
            }
        }
    }
    all
}

fn check_priors(input_w: i32, input_h: i32) -> usize {
    let priors = generate_priors(input_w, input_h);
    let expected = expected_priors(input_w, input_h);
    assert_eq!(priors.row_count(), expected.len());
    for (i, row) in expected.iter().enumerate() {
        for (c, v) in row.iter().enumerate() {
            assert_eq!(priors.at(i, c).bits, v.to_bits(), "row {} column {}", i, c);
        }
    }
    expected.len()
}

#[test]
fn priors_of_the_standard_input() {
    assert_eq!(check_priors(INPUT_WIDTH, INPUT_HEIGHT), 5800);
    let priors = generate_priors(INPUT_WIDTH, INPUT_HEIGHT);
    assert_eq!(f(priors.at(0, 0)), 0.0125);
    assert_eq!(f(priors.at(0, 1)), 0.0125);
    assert_eq!(f(priors.at(0, 2)), 0.03125);
    assert_eq!(f(priors.at(5799, 0)), 0.95);
    assert_eq!(f(priors.at(5799, 3)), 0.3);
}

#[test]
fn priors_of_odd_inputs() {
    check_priors(100, 50);
    check_priors(33, 7);
    check_priors(1, 1);
    check_priors(641, 479);
}

#[test]
fn no_priors_of_an_input_without_pixels() {
    assert_eq!(check_priors(0, 320), 0);
    assert_eq!(check_priors(320, 0), 0);
    assert_eq!(check_priors(-100, 320), 0);
    assert_eq!(check_priors(i32::MIN, i32::MIN), 0);
}

#[test]
fn centers_round_the_exact_fraction() {
    // (2 * 3 + 1) * 16 / (2 * 100) with a double that is then rounded once
    let priors = generate_priors(100, 100);
    // 13 * 13 * 3 rows of the first map, then cell 3 of the first row of the second
    let row = 13 * 13 * 3 + 3 * 2;
    assert_eq!(f(priors.at(row, 0)), (56.0f64 / 100.0) as f32);
    assert_eq!(f(priors.at(row, 2)), (32.0f64 / 100.0) as f32);
}

#[test]
fn planes_of_a_padded_image() {
    let (w, h, step) = (4usize, 3usize, 16usize);
    let data: Vec<u8> = (0..(step * h) as u32).map(|i| (i * 7 % 256) as u8).collect();
    let (tensor, scale_x, scale_y) = preprocess(640, 480, &data, step, w as i32, h as i32);
    for c in 0..3 {
        for y in 0..h {
            for x in 0..w {
                assert_eq!(f(tensor.at(0, c, y, x)), data[y * step + x * 3 + c] as f32);
            }
        }
    }
    assert_eq!(f(scale_x), 160.0);
    assert_eq!(f(scale_y), 160.0);
}

#[test]
fn planes_of_one_pixel_keep_every_byte() {
    for v in 0..=255u8 {
        let (tensor, _, _) = preprocess(1, 1, &[v, 0, 255 - v], 3, 1, 1);
        assert_eq!(tensor.at(0, 0, 0, 0).to_i32(), v as i32);
        assert_eq!(tensor.at(0, 1, 0, 0).bits, 0);
        assert_eq!(tensor.at(0, 2, 0, 0).to_i32(), 255 - v as i32);
    }
}

#[test]
fn scales_are_rounded_ratios() {
    let data = [0u8; 27];
    let (_, scale_x, scale_y) = preprocess(1920, 1080, &data, 9, 3, 3);
    assert_eq!(f(scale_x), 640.0);
    assert_eq!(f(scale_y), 360.0);
    let (_, scale_x, scale_y) = preprocess(100, 3, &data, 9, 3, 3);
    assert_eq!(f(scale_x), 100.0f32 / 3.0);
    assert_eq!(f(scale_y), 1.0);
}

#[test]
fn tensors_hold_what_is_put_in() {
    let mut tensor = Tensor::zeros(2, 3, 4, 5);
    assert_eq!(tensor.at(1, 2, 3, 4).bits, 0);
    tensor.set(1, 2, 3, 4, Binary32::from_bits(9));
    tensor.set(0, 0, 0, 1, Binary32::from_bits(7));
    assert_eq!(tensor.at(1, 2, 3, 4).bits, 9);
    assert_eq!(tensor.at(0, 0, 0, 1).bits, 7);
    assert_eq!(tensor.at(0, 0, 0, 0).bits, 0);
    assert_eq!(tensor.at(1, 2, 3, 3).bits, 0);
}

#[test]
fn matrices_are_filled_row_by_row() {
    let m = Matrix::from_rows(2, 3, vec![1, 2, 3, 4, 5, 6]).unwrap();
    assert_eq!(m.row_count(), 2);
    assert_eq!(m.at(0, 2).bits, 3);
    assert_eq!(m.at(1, 0).bits, 4);
    assert_eq!(m.at(1, 2).bits, 6);
    assert!(Matrix::from_rows(2, 3, vec![1, 2, 3, 4, 5]).is_none());
    assert!(Matrix::from_rows(2, 3, vec![1, 2, 3, 4, 5, 6, 7]).is_none());
    assert!(Matrix::from_rows(0, 4, vec![1]).is_none());
    assert_eq!(Matrix::from_rows(0, 4, vec![]).unwrap().row_count(), 0);
    assert!(Matrix::from_rows(0, usize::MAX, vec![]).is_none());
    assert!(Matrix::from_rows(usize::MAX, 2, vec![1, 2]).is_none());
}

struct Noise(u64);

impl Noise {
    fn next(&mut self, low: f32, high: f32) -> f32 {
        self.0 = self.0.wrapping_mul(6364136223846793005).wrapping_add(1442695040888963407);
        low + (high - low) * ((self.0 >> 40) as f32 / 16777216.0)
    }
}

fn expected_detections(
    loc: &[Vec<f32>],
    conf: &[Vec<f32>],
    iou: &[Vec<f32>],
    priors: &[[f32; 4]],
    input_w: i32,
    input_h: i32,
) -> Vec<(f32, [f32; 14])> {
    let (w, h) = (input_w as f32, input_h as f32);
    let mut all = Vec::new();
    for i in 0..priors.len() {
        let score = (conf[i][1] * iou[i][0].clamp(0.0, 1.0)).sqrt();
        if score < 0.15 {
            continue;
        }
        let [px, py, pw, ph] = priors[i];
        let cx = px + loc[i][0] * 0.1 * pw;
        let cy = py + loc[i][1] * 0.1 * ph;
        let bw = pw * (loc[i][2] * 0.2).exp();
        let bh = ph * (loc[i][3] * 0.2).exp();
        let mut data = [0.0f32; 14];
        data[0] = (cx - bw / 2.0) * w;
        data[1] = (cy - bh / 2.0) * h;
        data[2] = (cx + bw / 2.0) * w;
        data[3] = (cy + bh / 2.0) * h;
        for k in 0..5 {
            data[4 + k * 2] = (px + loc[i][4 + k * 2] * 0.1 * pw) * w;
            data[5 + k * 2] = (py + loc[i][5 + k * 2] * 0.1 * ph) * h;
        }
        all.push((score, data));
    }
    all
}

fn check_decode(loc: &[Vec<f32>], conf: &[Vec<f32>], iou: &[Vec<f32>], input_w: i32, input_h: i32) -> usize {
    let priors = generate_priors(input_w, input_h);
    let expected = expected_detections(loc, conf, iou, &expected_priors(input_w, input_h), input_w, input_h);
    let (loc, conf, iou) = (matrix(loc), matrix(conf), matrix(iou));
    let growths = log_growths(&loc, &conf, &iou, priors.row_count())
        .into_iter()
        .map(|(w, h)| {
            (
                Binary32::from_bits(f(w).exp().to_bits()),
                Binary32::from_bits(f(h).exp().to_bits()),
            )
        })
        .collect();
    let found = decode(&loc, &conf, &iou, &priors, &growths, input_w, input_h);
    assert_eq!(found.len(), expected.len());
    for (detection, (score, data)) in found.iter().zip(&expected) {
        assert!(detection.score.bits == score.to_bits() || score.is_nan() && detection.score.not_a_number());
        for c in 0..14 {
            assert_eq!(detection.data[c].bits, data[c].to_bits());
        }
    }
    expected.len()
}

#[test]
fn decoding_matches_the_machine() {
    let n = expected_priors(64, 48).len();
    let mut noise = Noise(7);
    let loc: Vec<Vec<f32>> = (0..n).map(|_| (0..14).map(|_| noise.next(-4.0, 4.0)).collect()).collect();
    let conf: Vec<Vec<f32>> = (0..n).map(|_| vec![0.0, noise.next(0.0, 1.0)]).collect();
    let iou: Vec<Vec<f32>> = (0..n).map(|_| vec![noise.next(-0.5, 1.5)]).collect();
    let found = check_decode(&loc, &conf, &iou, 64, 48);
    assert!(0 < found && found < n);
}

#[test]
fn decoding_drops_low_scores_and_keeps_the_rest_in_order() {
    let n = expected_priors(32, 32).len();
    let loc: Vec<Vec<f32>> = (0..n).map(|i| vec![i as f32 * 0.01; 14]).collect();
    let iou: Vec<Vec<f32>> = (0..n).map(|_| vec![1.0]).collect();
    // The root of 0.02 is below 0.15, that of 0.16 is 0.4, and a negative product has none.
    let conf: Vec<Vec<f32>> = (0..n)
        .map(|i| vec![9.0, [0.0, 0.02, 0.16, -1.0, 1.0][i % 5]])
        .collect();
    let found = check_decode(&loc, &conf, &iou, 32, 32);
    let expected = (0..n).filter(|i| i % 5 >= 2).count();
    assert_eq!(found, expected);
}

#[test]
fn nothing_is_found_among_zeros() {
    let n = expected_priors(32, 32).len();
    let loc = vec![vec![0.0; 14]; n];
    let conf = vec![vec![0.0, 0.0]; n];
    let iou = vec![vec![0.0]; n];
    assert_eq!(check_decode(&loc, &conf, &iou, 32, 32), 0);
}

#[test]
fn weights_are_the_decimal_ones() {
    assert_eq!(CENTER_VARIANCE, 0.1f32.to_bits());
    assert_eq!(SIZE_VARIANCE, 0.2f32.to_bits());
    assert_eq!(LEAST_SCORE, 0.15f32.to_bits());
}

#[test]
fn faces_without_an_offset_fill_their_prior_boxes() {
    let priors = generate_priors(32, 32);
    let n = priors.row_count();
    let loc = matrix(&vec![vec![0.0; 14]; n]);
    let conf = matrix(&vec![vec![0.0, 1.0]; n]);
    let iou = matrix(&vec![vec![1.0]; n]);
    let logs = log_growths(&loc, &conf, &iou, n);
    assert!(logs.iter().all(|&(w, h)| f(w) == 0.0 && f(h) == 0.0));
    let growths = logs.iter().map(|_| (Binary32::from_bits(0x3f80_0000), Binary32::from_bits(0x3f80_0000))).collect();
    let found = decode(&loc, &conf, &iou, &priors, &growths, 32, 32);
    assert_eq!(found.len(), n);
    // The first cell's middle is 4 pixels in, and its first box 10 pixels wide.
    assert_eq!(f(found[0].score), 1.0);
    assert_eq!(found[0].data.map(f)[..4], [-1.0, -1.0, 9.0, 9.0]);
    assert_eq!(found[0].data.map(f)[4..], [4.0; 10]);
}

#[test]
fn tables_without_rows_keep_their_columns() {
    for (w, h) in [(0, 320), (320, 0), (-7, 20), (0, 0)] {
        let shown = format!("{:?}", generate_priors(w, h));
        assert!(shown.contains("shape=[0, 4]"), "{}", shown);
    }
    assert!(format!("{:?}", generate_priors(320, 320)).contains("shape=[5800, 4]"));
    assert!(format!("{:?}", Matrix::from_rows(0, 7, Vec::new()).unwrap()).contains("shape=[0, 7]"));
}

#[test]
fn priors_are_counted_by_cells() {
    for (w, h) in [(1, 1), (8, 9), (33, 64), (100, 37)] {
        let cells = |s: usize| ((w + s - 1) / s) * ((h + s - 1) / s);
        let expected = 3 * cells(8) + 2 * cells(16) + 2 * cells(32);
        assert_eq!(generate_priors(w as i32, h as i32).row_count(), expected);
    }
}

#[test]
fn exchanged_sides_exchange_the_columns() {
    let rows = |w: i32, h: i32, columns: [usize; 4]| {
        let priors = generate_priors(w, h);
        let mut all: Vec<[u32; 4]> = (0..priors.row_count()).map(|i| columns.map(|c| priors.at(i, c).bits)).collect();
        all.sort();
        all
    };
    for (w, h) in [(100, 37), (64, 320), (1, 200), (50, 50)] {
        assert_eq!(rows(w, h, [1, 0, 3, 2]), rows(h, w, [0, 1, 2, 3]));
    }
}

#[test]
fn doubled_sides_double_their_own_numbers() {
    let priors = generate_priors(64, 48);
    let n = priors.row_count();
    let mut noise = Noise(11);
    let loc = matrix(&(0..n).map(|_| (0..14).map(|_| noise.next(-4.0, 4.0)).collect()).collect::<Vec<_>>());
    let conf = matrix(&(0..n).map(|_| vec![0.0, noise.next(0.0, 1.0)]).collect::<Vec<_>>());
    let iou = matrix(&(0..n).map(|_| vec![noise.next(0.0, 1.0)]).collect::<Vec<_>>());
    let growths = log_growths(&loc, &conf, &iou, n)
        .iter()
        .map(|&(w, h)| (Binary32::from_bits(f(w).exp().to_bits()), Binary32::from_bits(f(h).exp().to_bits())))
        .collect();
    // The last width is rounded when it becomes a number.
    for (w, h) in [(64, 48), (-3, 1), (0x100_0003, 5)] {
        let once = decode(&loc, &conf, &iou, &priors, &growths, w, h);
        let wide = decode(&loc, &conf, &iou, &priors, &growths, 2 * w, h);
        let high = decode(&loc, &conf, &iou, &priors, &growths, w, 2 * h);
        assert!(once.len() > 0 && once.len() == wide.len() && once.len() == high.len());
        for ((a, b), c) in once.iter().zip(&wide).zip(&high) {
            assert!(a.score == b.score && a.score == c.score);
            for k in 0..14 {
                let (x, y) = if k % 2 == 0 { (2.0, 1.0) } else { (1.0, 2.0) };
                assert_eq!(f(b.data[k]), x * f(a.data[k]));
                assert_eq!(f(c.data[k]), y * f(a.data[k]));
            }
        }
    }
}

#[test]
fn found_rows_are_those_with_a_score() {
    let conf = matrix(&[vec![0.0, 1.0], vec![1.0, 0.0], vec![0.0, 0.16], vec![0.0, f32::NAN]]);
    let iou = matrix(&[vec![1.0], vec![1.0], vec![0.5], vec![1.0]]);
    assert_eq!(rows_found(&conf, &iou, 4), vec![0, 2, 3]);
    assert_eq!(rows_found(&conf, &iou, 2), vec![0]);
    assert_eq!(rows_found(&conf, &iou, 0), Vec::<usize>::new());
}

#[test]
fn a_picture_of_the_same_size_is_not_scaled() {
    for side in [1, 320, 0x100_0001, i32::MAX] {
        assert_eq!(Binary32::from_i32(side).over(Binary32::from_i32(side)).bits, 1.0f32.to_bits());
    }
    let (_, x, y) = preprocess(2, 1, &[1, 2, 3, 4, 5, 6], 6, 2, 1);
    assert_eq!((f(x), f(y)), (1.0, 1.0));
}
