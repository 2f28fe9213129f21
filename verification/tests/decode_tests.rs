use rover_vision::errors::DetectError;
use rover_vision::yolo::{MatInfo, Tensor, mat_info_for, post_process};

// Tensor layout: value of channel `c` at anchor `r` sits at `c * anchors + r`.
fn tensor_from_rows(channels: usize, anchors: usize, rows: Vec<Vec<i64>>) -> Tensor {
    assert_eq!(rows.len(), anchors);
    let mut data = vec![0i64; channels * anchors];
    for (r, row) in rows.iter().enumerate() {
        assert_eq!(row.len(), channels);
        for (c, v) in row.iter().enumerate() {
            data[c * anchors + r] = *v;
        }
    }
    Tensor::new(channels, anchors, data).expect("tensor bounds")
}

// Original frame 1280x720 padded to a 1280x1280 square, model input 640,
// so both axes rescale by 2.0. Anchor box (cx 320, cy 320, w 100, h 80)
// with the best class score 0.9 at index 5 decodes to the box
// (540, 560) .. (740, 720).
#[test]
fn scenario_1280x720_anchor_decodes_exactly() {
    let t = tensor_from_rows(
        10,
        1,
        vec![vec![320, 320, 100, 80, 100, 100, 100, 100, 100, 900]],
    );
    let info = MatInfo { width: 1280, height: 1280, scaled_size: 640 };
    let dets = post_process(&t, &info, 6, 500, 500).expect("shape matches");
    assert_eq!(dets.detections.len(), 1);
    let b = &dets.detections[0];
    assert_eq!(b.xmin, 540);
    assert_eq!(b.ymin, 560);
    assert_eq!(b.xmax, 740);
    assert_eq!(b.ymax, 720);
    assert_eq!(b.class, 5);
    assert_eq!(b.conf, 900);
}

// Width rescales by width/scaled_size and height by height/scaled_size,
// so a non-square target stretches the two axes differently.
#[test]
fn axes_rescale_independently() {
    let t = tensor_from_rows(5, 1, vec![vec![320, 320, 100, 80, 900]]);
    let info = MatInfo { width: 1280, height: 720, scaled_size: 640 };
    let dets = post_process(&t, &info, 1, 500, 500).expect("shape matches");
    assert_eq!(dets.detections.len(), 1);
    let b = &dets.detections[0];
    // x = round(270 * 2.0) = 540; y = round(280 * 1.125) = 315
    assert_eq!(b.xmin, 540);
    assert_eq!(b.ymin, 315);
    // w = round(100 * 2.0) = 200; h = round(80 * 1.125) = 90
    assert_eq!(b.xmax, 740);
    assert_eq!(b.ymax, 405);
}

// A remainder of exactly one half rounds away from zero.
#[test]
fn half_pixel_rounds_away_from_zero() {
    let t = tensor_from_rows(5, 1, vec![vec![1, 1, 1, 1, 900]]);
    let info = MatInfo { width: 1, height: 1, scaled_size: 1 };
    let dets = post_process(&t, &info, 1, 0, 500).expect("shape matches");
    assert_eq!(dets.detections.len(), 1);
    let b = &dets.detections[0];
    // corner = round((1 - 0.5) * 1 / 1) = round(0.5) = 1
    assert_eq!(b.xmin, 1);
    assert_eq!(b.ymin, 1);
    assert_eq!(b.xmax, 2);
    assert_eq!(b.ymax, 2);
}

// No anchor above the fixed 0.25 floor: an empty detection list, not an
// error. A score of exactly 250 thousandths does not pass the strict floor.
#[test]
fn empty_tensor_yields_empty_detections() {
    let t = tensor_from_rows(
        5,
        2,
        vec![vec![10, 10, 4, 4, 200], vec![20, 20, 4, 4, 250]],
    );
    let info = MatInfo { width: 640, height: 640, scaled_size: 640 };
    let dets = post_process(&t, &info, 1, 500, 500).expect("shape matches");
    assert_eq!(dets.detections.len(), 0);
}

// A score just above the floor is kept even when the caller's own
// threshold inside NMS is lower.
#[test]
fn floor_boundary_251_is_kept() {
    let t = tensor_from_rows(5, 1, vec![vec![10, 10, 4, 4, 251]]);
    let info = MatInfo { width: 640, height: 640, scaled_size: 640 };
    let dets = post_process(&t, &info, 1, 0, 500).expect("shape matches");
    assert_eq!(dets.detections.len(), 1);
    assert_eq!(dets.detections[0].conf, 251);
}

// The caller-supplied confidence threshold is a second floor, applied
// inside NMS on top of the fixed decode floor.
#[test]
fn caller_threshold_filters_after_decode() {
    let t = tensor_from_rows(
        5,
        2,
        vec![vec![10, 10, 4, 4, 300], vec![300, 300, 4, 4, 700]],
    );
    let info = MatInfo { width: 640, height: 640, scaled_size: 640 };
    let dets = post_process(&t, &info, 1, 500, 500).expect("shape matches");
    assert_eq!(dets.detections.len(), 1);
    assert_eq!(dets.detections[0].conf, 700);
}

// Channel count not matching 4 + num_classes is a malformed tensor.
#[test]
fn wrong_channel_count_is_malformed() {
    let t = tensor_from_rows(5, 1, vec![vec![10, 10, 4, 4, 900]]);
    let info = MatInfo { width: 640, height: 640, scaled_size: 640 };
    let r = post_process(&t, &info, 3, 500, 500);
    assert_eq!(r, Err(DetectError::MalformedTensor));
}

// Tensor construction checks the shape and the value bounds.
#[test]
fn tensor_new_rejects_bad_shapes_and_values() {
    assert!(Tensor::new(5, 1, vec![0; 4]).is_none());
    assert!(Tensor::new(5, 1, vec![0, 0, 0, 0, -100]).is_some());
    // a negative value in a coordinate channel is rejected
    assert!(Tensor::new(5, 1, vec![-1, 0, 0, 0, 0]).is_none());
    // a value beyond the quantization bound is rejected
    assert!(Tensor::new(5, 1, vec![0, 0, 0, 0, 0x20_0000]).is_none());
    assert!(Tensor::new(5, 1, vec![0, 0, 0, 0, 0]).is_some());
}

// A 1280x720 frame pads to a 1280 square, so both axes rescale by the
// same factor; zero dimensions are unusable.
#[test]
fn mat_info_uses_padded_square_side() {
    let info = mat_info_for(1280, 720, 640).expect("dimensions usable");
    assert_eq!(info, MatInfo { width: 1280, height: 1280, scaled_size: 640 });
    assert!(mat_info_for(0, 720, 640).is_none());
    assert!(mat_info_for(1280, 720, 0).is_none());
}

// The class index reported is the first channel attaining the maximum.
#[test]
fn argmax_takes_first_of_ties() {
    let t = tensor_from_rows(8, 1, vec![vec![10, 10, 4, 4, 300, 800, 800, 500]]);
    let info = MatInfo { width: 640, height: 640, scaled_size: 640 };
    let dets = post_process(&t, &info, 4, 0, 500).expect("shape matches");
    assert_eq!(dets.detections.len(), 1);
    assert_eq!(dets.detections[0].class, 1);
    assert_eq!(dets.detections[0].conf, 800);
}
