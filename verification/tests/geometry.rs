use camtrap::geometry::{iou_ge, nms, Bbox, SCALE};

fn px(v: i64) -> i64 {
    v * SCALE
}

fn bbox(class: usize, score_q: i64, x1: i64, y1: i64, x2: i64, y2: i64) -> Bbox {
    Bbox { x1: px(x1), y1: px(y1), x2: px(x2), y2: px(y2), score: score_q, class }
}

#[test]
fn iou_of_identical_boxes_reaches_any_threshold() {
    let a = bbox(0, 9000, 0, 0, 10, 10);
    assert!(iou_ge(&a, &a, SCALE));
    assert!(iou_ge(&a, &a, 5000));
    assert!(iou_ge(&a, &a, 0));
}

#[test]
fn iou_of_disjoint_boxes_is_zero() {
    let a = bbox(0, 9000, 0, 0, 10, 10);
    let b = bbox(0, 8000, 20, 20, 30, 30);
    assert!(!iou_ge(&a, &b, 1));
    assert!(iou_ge(&a, &b, 0));
}

#[test]
fn iou_exact_value_on_half_overlap() {
    // [0,10]x[0,10] and [5,0]..[15,10]: intersection 50, union 150, IoU = 1/3.
    let a = bbox(0, 9000, 0, 0, 10, 10);
    let b = bbox(0, 8000, 5, 0, 15, 10);
    assert!(iou_ge(&a, &b, 3333));
    assert!(!iou_ge(&a, &b, 3334));
}

#[test]
fn nms_keeps_best_of_overlapping_same_class() {
    // The scenario with three boxes: two class-0 boxes overlap heavily, a
    // class-1 box sits on top of the winner but survives class-aware NMS.
    let input = vec![
        bbox(0, 9000, 0, 0, 10, 10),
        bbox(0, 8000, 1, 1, 10, 10),
        bbox(1, 7000, 0, 0, 10, 10),
    ];
    let out = nms(input, false, 100, 5000);
    assert_eq!(out.len(), 2);
    assert_eq!(out[0].score, 9000);
    assert_eq!(out[0].class, 0);
    assert_eq!(out[1].score, 7000);
    assert_eq!(out[1].class, 1);
}

#[test]
fn nms_agnostic_drops_across_classes() {
    let input = vec![
        bbox(0, 9000, 0, 0, 10, 10),
        bbox(0, 8000, 1, 1, 10, 10),
        bbox(1, 7000, 0, 0, 10, 10),
    ];
    let out = nms(input, true, 100, 5000);
    assert_eq!(out.len(), 1);
    assert_eq!(out[0].score, 9000);
}

#[test]
fn nms_respects_topk() {
    // Five disjoint boxes of one class, top-2 kept.
    let mut input = Vec::new();
    for i in 0..5i64 {
        input.push(bbox(0, 9000 - 100 * i, 20 * i, 0, 20 * i + 10, 10));
    }
    let out = nms(input, false, 2, 5000);
    assert_eq!(out.len(), 2);
    assert_eq!(out[0].score, 9000);
    assert_eq!(out[1].score, 8900);
}

#[test]
fn nms_output_is_subset_and_sorted() {
    let input = vec![
        bbox(2, 1000, 0, 0, 5, 5),
        bbox(2, 9500, 100, 100, 110, 110),
        bbox(3, 5000, 50, 50, 60, 60),
    ];
    let out = nms(input.clone(), false, 100, 5000);
    assert_eq!(out.len(), 3);
    // Top element is the best-scoring input box.
    assert_eq!(out[0].score, 9500);
    for b in &out {
        assert!(input.iter().any(|c| c == b));
    }
}
