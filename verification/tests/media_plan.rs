use camtrap::detect::{get_label, postprocess_frame, RawDetection};
use camtrap::geometry::SCALE;
use camtrap::media::{letterbox_plan, plan_image_frame, plan_video_frames, FrameMeta};
use camtrap::utils::{sample_evenly, FileItem};

fn item(path: &str) -> FileItem {
    FileItem::new(1, 0, path.to_string(), None)
}

#[test]
fn sample_evenly_takes_strided_indices() {
    let list: Vec<usize> = (0..100).collect();
    let out = sample_evenly(&list, 10);
    assert_eq!(out, vec![0, 10, 20, 30, 40, 50, 60, 70, 80, 90]);
}

#[test]
fn sample_evenly_is_identity_for_large_samples() {
    let list: Vec<usize> = (0..7).collect();
    let out = sample_evenly(&list, 7);
    assert_eq!(out, list);
    let out2 = sample_evenly(&list, 100);
    assert_eq!(out2, list);
    let again = sample_evenly(&out2, 100);
    assert_eq!(again, out2);
}

#[test]
fn sample_evenly_empty_cases() {
    let list: Vec<usize> = (0..5).collect();
    assert!(sample_evenly(&list, 0).is_empty());
    let empty: Vec<usize> = Vec::new();
    assert!(sample_evenly(&empty, 3).is_empty());
}

#[test]
fn letterbox_wide_image() {
    // A 1000x500 image letterboxed into a 640 square: ratio 1.5625, the
    // image resized to 640x320, padded 160 rows above and below.
    let plan = letterbox_plan(1000, 500, 640);
    assert_eq!(plan.ratio, 15625);
    assert_eq!(plan.resized_w, 640);
    assert_eq!(plan.resized_h, 320);
    assert_eq!(plan.pad_x, 0);
    assert_eq!(plan.pad_y, 160);
}

#[test]
fn letterbox_tall_image_rounds_to_even() {
    let plan = letterbox_plan(500, 999, 640);
    // 500 * 640 / 999 = 320.3 -> 320 (even already).
    assert_eq!(plan.resized_w, 320);
    assert_eq!(plan.resized_h, 640);
    assert_eq!(plan.pad_x, 160);
    assert_eq!(plan.pad_y, 0);
}

#[test]
fn image_frame_is_one_of_one() {
    let f = item("a/b.jpg");
    let meta = plan_image_frame(&f, 640, 480, 640, None);
    assert_eq!(meta.frame_index, 0);
    assert_eq!(meta.total_frames, 1);
    assert!(!meta.iframe);
    assert_eq!(meta.width, 640);
    assert_eq!(meta.height, 480);
}

#[test]
fn video_sampling_takes_every_tenth_frame() {
    let f = item("clip.mp4");
    let nums: Vec<usize> = (0..100).collect();
    let metas = match plan_video_frames(&f, &nums, 1920, 1080, 640, false, Some(10), None, String::new()) {
        Ok(m) => m,
        Err(_) => panic!("planning must succeed on a nonempty decode"),
    };
    assert_eq!(metas.len(), 10);
    for (i, m) in metas.iter().enumerate() {
        assert_eq!(m.frame_index, i * 10);
        assert_eq!(m.total_frames, 10);
    }
}

#[test]
fn empty_video_yields_error_envelope() {
    let f = item("clip.mp4");
    let nums: Vec<usize> = Vec::new();
    let r = plan_video_frames(
        &f,
        &nums,
        1920,
        1080,
        640,
        false,
        Some(10),
        None,
        "Failed to decode: clip.mp4".to_string(),
    );
    match r {
        Ok(_) => panic!("an empty decode must not plan frames"),
        Err(err) => {
            assert_eq!(err.error, "Failed to decode: clip.mp4");
            assert_eq!(err.file.file_path, "clip.mp4");
        }
    }
}

fn meta_for(w: usize, h: usize, pad: (usize, usize), ratio: i64) -> FrameMeta {
    FrameMeta {
        file: item("a.jpg"),
        width: w,
        height: h,
        padding: pad,
        ratio,
        frame_index: 0,
        total_frames: 1,
        shoot_time: None,
        iframe: false,
    }
}

#[test]
fn unprojection_of_full_square_detection() {
    // Model-space box covering the whole 640 square of a 1000x500 frame:
    // x spans to 1000 exactly, y un-projects to 750 and clamps to 500.
    let frame = meta_for(1000, 500, (0, 160), 15625);
    let rows = vec![RawDetection {
        x1: 0,
        y1: 0,
        x2: 640 * SCALE,
        y2: 640 * SCALE,
        score: 9000,
        class_id: 0,
    }];
    let out = postprocess_frame(&rows, &frame, 5000, 4500, false);
    assert_eq!(out.len(), 1);
    assert_eq!(out[0].x1, 0);
    assert_eq!(out[0].y1, 0);
    assert_eq!(out[0].x2, 1000 * SCALE);
    assert_eq!(out[0].y2, 500 * SCALE);
}

#[test]
fn low_confidence_rows_are_dropped() {
    let frame = meta_for(1000, 500, (0, 160), 15625);
    let rows = vec![RawDetection {
        x1: 0,
        y1: 0,
        x2: 640 * SCALE,
        y2: 640 * SCALE,
        score: 4999,
        class_id: 0,
    }];
    let out = postprocess_frame(&rows, &frame, 5000, 4500, false);
    assert!(out.is_empty());
}

#[test]
fn rtdetr_rows_pass_through_without_suppression() {
    let frame = meta_for(1000, 500, (0, 160), 15625);
    let row = |s: i64| RawDetection {
        x1: 100 * SCALE,
        y1: 250 * SCALE + 160 * 15625,
        x2: 200 * SCALE,
        y2: 300 * SCALE + 160 * 15625,
        score: s,
        class_id: 0,
    };
    let rows = vec![row(9000), row(8000)];
    let out = postprocess_frame(&rows, &frame, 5000, 4500, true);
    // RT-DETR coordinates shift by padding times ratio and both rows stay.
    assert_eq!(out.len(), 2);
    assert_eq!(out[0].x1, 100 * SCALE);
    assert_eq!(out[0].y1, 250 * SCALE);
    assert_eq!(out[0].y2, 300 * SCALE);
}

#[test]
fn blank_frames_get_the_blank_label() {
    let classes = vec!["Animal".to_string(), "Person".to_string()];
    let labels = get_label(&Vec::new(), &classes);
    assert_eq!(labels, vec!["Blank".to_string()]);
}

#[test]
fn labels_name_detected_classes_once_in_id_order() {
    let classes = vec!["Animal".to_string(), "Person".to_string(), "Vehicle".to_string()];
    let b = |class: usize| camtrap::geometry::Bbox {
        x1: 0,
        y1: 0,
        x2: SCALE,
        y2: SCALE,
        score: 9000,
        class,
    };
    let boxes = vec![b(2), b(0), b(2)];
    let labels = get_label(&boxes, &classes);
    assert_eq!(labels, vec!["Animal".to_string(), "Vehicle".to_string()]);
}
