use rover_vision::nms::{Candidate, nms};

fn cand(x: i64, y: i64, w: i64, h: i64, score: i64, class: i64) -> Candidate {
    Candidate { x, y, w, h, score, class }
}

// Two candidates with IoU 0.9 (areas 10000 and 9000, intersection 9000)
// and scores 0.9 / 0.6 under an IoU threshold of 0.5: only the
// higher-scoring box survives.
#[test]
fn overlap_keeps_only_highest_score() {
    let a = cand(0, 0, 100, 100, 900, 0);
    let b = cand(0, 0, 100, 90, 600, 1);
    let out = nms(&vec![a, b], 0, 500);
    assert_eq!(out, vec![a]);
}

// Disjoint boxes never suppress each other, and survivors come out in
// descending score order.
#[test]
fn disjoint_boxes_all_survive() {
    let a = cand(0, 0, 10, 10, 600, 0);
    let b = cand(100, 100, 10, 10, 900, 1);
    let c = cand(200, 200, 10, 10, 700, 2);
    let out = nms(&vec![a, b, c], 0, 500);
    assert_eq!(out, vec![b, c, a]);
}

// Applying suppression twice to an already-suppressed set changes
// nothing.
#[test]
fn suppression_is_idempotent() {
    let cands = vec![
        cand(0, 0, 100, 100, 900, 0),
        cand(10, 10, 100, 100, 850, 0),
        cand(300, 300, 50, 50, 700, 1),
        cand(305, 305, 50, 50, 650, 1),
        cand(1000, 0, 20, 20, 400, 2),
    ];
    let once = nms(&cands, 300, 450);
    let twice = nms(&once, 300, 450);
    assert_eq!(once, twice);
}

// The caller-supplied confidence floor is strict: a score equal to it
// is dropped.
#[test]
fn confidence_floor_is_strict() {
    let a = cand(0, 0, 10, 10, 500, 0);
    let b = cand(100, 0, 10, 10, 501, 1);
    let out = nms(&vec![a, b], 500, 500);
    assert_eq!(out, vec![b]);
}

// IoU exactly at the threshold does not suppress (strict comparison):
// two 10x10 boxes sharing half their area have IoU 50/150 = 1/3.
#[test]
fn iou_at_threshold_does_not_suppress() {
    let a = cand(0, 0, 10, 10, 900, 0);
    let b = cand(5, 0, 10, 10, 800, 0);
    let at = nms(&vec![a, b], 0, 333);
    assert_eq!(at.len(), 1); // 1000*50 > 333*150 -> suppressed
    let above = nms(&vec![a, b], 0, 334);
    assert_eq!(above, vec![a, b]); // 1000*50 < 334*150 -> both kept
}

// Ties in score select the earlier candidate first; the later duplicate
// is then suppressed.
#[test]
fn score_ties_prefer_earlier_candidate() {
    let a = cand(0, 0, 10, 10, 700, 0);
    let b = cand(1, 0, 10, 10, 700, 1);
    let out = nms(&vec![a, b], 0, 500);
    assert_eq!(out, vec![a]);
}

// Zero-area boxes have IoU treated as zero and never suppress.
#[test]
fn zero_area_boxes_survive_together() {
    let a = cand(5, 5, 0, 0, 900, 0);
    let b = cand(5, 5, 0, 0, 800, 1);
    let out = nms(&vec![a, b], 0, 500);
    assert_eq!(out, vec![a, b]);
}

#[test]
fn empty_input_gives_empty_output() {
    let out = nms(&vec![], 0, 500);
    assert_eq!(out, vec![]);
}
