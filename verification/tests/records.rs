use camtrap::checkpoint::{checkpoint_kind, filter_completed, is_completed, ExportFormat};
use camtrap::export::{
    encode_csv, encode_json, error_export_frame, make_export_frame, parse_export_csv, ExportFrame,
    ExportState,
};
use camtrap::geometry::Bbox;
use camtrap::media::{plan_image_frame};
use camtrap::utils::FileItem;

fn item(folder: usize, file: usize, path: &str) -> FileItem {
    FileItem::new(folder, file, path.to_string(), None)
}

fn record(folder: usize, file: usize, path: &str, frame_index: usize, total: usize) -> ExportFrame {
    ExportFrame {
        file: item(folder, file, path),
        shoot_time: Some("2024-05-01 12:00:00".to_string()),
        frame_index,
        total_frames: total,
        bboxes: Some(vec![Bbox { x1: 0, y1: 0, x2: 100_000, y2: 100_000, score: 9000, class: 0 }]),
        label: Some(vec!["Animal".to_string()]),
        error: None,
        iframe: false,
    }
}

fn assert_same_record(a: &ExportFrame, b: &ExportFrame) {
    assert_eq!(a.file.folder_id, b.file.folder_id);
    assert_eq!(a.file.file_id, b.file.file_id);
    assert_eq!(a.file.file_path, b.file.file_path);
    assert_eq!(a.shoot_time, b.shoot_time);
    assert_eq!(a.frame_index, b.frame_index);
    assert_eq!(a.total_frames, b.total_frames);
    assert_eq!(a.bboxes, b.bboxes);
    assert_eq!(a.label, b.label);
    assert_eq!(a.error, b.error);
    assert_eq!(a.iframe, b.iframe);
}

#[test]
fn csv_round_trip_preserves_records() {
    let records = vec![
        record(1, 0, "cam1/a.jpg", 0, 1),
        record(1, 1, "cam1/b, with \"odd\" name.jpg", 0, 1),
        record(2, 2, "cam2/clip.mp4", 10, 3),
    ];
    let text = encode_csv(&records);
    let parsed = parse_export_csv(&text).expect("own output must parse");
    assert_eq!(parsed.len(), records.len());
    for (a, b) in parsed.iter().zip(records.iter()) {
        assert_same_record(a, b);
    }
}

#[test]
fn csv_round_trip_of_error_record() {
    let err = error_export_frame(item(3, 7, "bad.jpg"), "Failed to decode: bad.jpg".to_string());
    let text = encode_csv(&vec![err]);
    let parsed = parse_export_csv(&text).expect("own output must parse");
    assert_eq!(parsed.len(), 1);
    assert_eq!(parsed[0].error.as_deref(), Some("Failed to decode: bad.jpg"));
    assert_eq!(parsed[0].bboxes.as_ref().map(|b| b.len()), Some(0));
    assert!(parsed[0].label.is_none());
    assert_eq!(parsed[0].total_frames, 1);
    assert_eq!(parsed[0].frame_index, 0);
}

#[test]
fn csv_exact_text_of_one_simple_record() {
    let r = ExportFrame {
        file: item(1, 2, "a.jpg"),
        shoot_time: None,
        frame_index: 0,
        total_frames: 1,
        bboxes: Some(Vec::new()),
        label: Some(vec!["Blank".to_string()]),
        error: None,
        iframe: false,
    };
    let text = encode_csv(&vec![r]);
    let expected = "folder_id,file_id,file_path,shoot_time,frame_index,total_frames,bboxes,label,error\n\
                    1,2,\"a.jpg\",\"\",0,1,\"[]\",\"Blank\",\"\"\n";
    assert_eq!(text, expected);
}

#[test]
fn json_exact_text_of_one_record() {
    let r = ExportFrame {
        file: item(0, 0, "a.png"),
        shoot_time: None,
        frame_index: 0,
        total_frames: 1,
        bboxes: Some(vec![Bbox { x1: 0, y1: 0, x2: 10_000, y2: 20_000, score: 9000, class: 1 }]),
        label: Some(vec!["Person".to_string()]),
        error: None,
        iframe: false,
    };
    let text = encode_json(&vec![r]);
    let expected = "[\n{\"folder_id\": 0, \"file_id\": 0, \"file_path\": \"a.png\", \
                    \"shoot_time\": null, \"frame_index\": 0, \"total_frames\": 1, \
                    \"bboxes\": [{\"x1\":0,\"y1\":0,\"x2\":10000,\"y2\":20000,\"score\":9000,\"class\":1}], \
                    \"label\": [\"Person\"], \"error\": null, \"iframe\": false}\n]";
    assert_eq!(text, expected);
}

#[test]
fn json_round_trip_preserves_everything() {
    // JSON keeps every field, the keyframe flag and odd characters
    // included.
    let mut r = record(4, 9, "cam\\2\nodd \"dir\"/clip.mp4", 3, 10);
    r.iframe = true;
    r.shoot_time = None;
    let records = vec![r, record(1, 0, "a.jpg", 0, 1)];
    let text = camtrap::export::encode_json(&records);
    let parsed = camtrap::export::parse_export_json(&text).expect("own output must parse");
    assert_eq!(parsed.len(), 2);
    for (a, b) in parsed.iter().zip(records.iter()) {
        assert_same_record(a, b);
    }
}

#[test]
fn json_of_empty_list() {
    let text = encode_json(&Vec::new());
    assert_eq!(text, "[]");
    let parsed = camtrap::export::parse_export_json("[]").expect("empty list");
    assert!(parsed.is_empty());
}

#[test]
fn test_parse_export_csv() {
    // Eleven records written and read back, as a resume would do.
    let mut records = Vec::new();
    for i in 0..11usize {
        records.push(record(1, i, "cam/a.jpg", 0, 1));
    }
    let text = encode_csv(&records);
    let export_data = parse_export_csv(&text).expect("own output must parse");
    assert_eq!(export_data.len(), 11);
}

#[test]
fn resume_removes_only_complete_files() {
    // Ten files; the checkpoint holds all frames of the first five.
    let pending: Vec<FileItem> = (0..10).map(|i| item(1, i, "f.jpg")).collect();
    let mut frames = Vec::new();
    for i in 0..5usize {
        frames.push(record(1, i, "f.jpg", 0, 2));
        frames.push(record(1, i, "f.jpg", 1, 2));
    }
    // A sixth file has only one of its two frames.
    frames.push(record(1, 5, "f.jpg", 0, 2));
    let remaining = filter_completed(&frames, pending);
    let ids: Vec<usize> = remaining.iter().map(|f| f.file_id).collect();
    assert_eq!(ids, vec![5, 6, 7, 8, 9]);
}

#[test]
fn completion_needs_a_positive_total() {
    let f = item(1, 0, "f.jpg");
    let frames = vec![record(1, 0, "f.jpg", 0, 0)];
    assert!(!is_completed(&frames, &f));
}

#[test]
fn checkpoint_round_trip_leaves_no_pending_work() {
    // Run A finished five files of one frame each and wrote its result
    // file; run B parses it back and filters the same file set: no file
    // stays pending, and the records carry over unchanged.
    let files: Vec<FileItem> = (0..5).map(|i| item(1, i, "cam/x.jpg")).collect();
    let records: Vec<ExportFrame> = (0..5).map(|i| record(1, i, "cam/x.jpg", 0, 1)).collect();
    let text = encode_csv(&records);
    let parsed = parse_export_csv(&text).expect("own output must parse");
    for (a, b) in parsed.iter().zip(records.iter()) {
        assert_same_record(a, b);
    }
    let remaining = filter_completed(&parsed, files);
    assert!(remaining.is_empty());
    let mut state = ExportState::new(10);
    state.seed(parsed);
    assert_eq!(state.records.len(), 5);
}

#[test]
fn exporter_snapshots_every_interval() {
    let mut state = ExportState::new(3);
    let mut snapshots = Vec::new();
    for i in 0..7usize {
        let snap = state.record(error_export_frame(item(1, i, "x.jpg"), "e".to_string()));
        snapshots.push(snap);
    }
    // The counter is checked before each append: snapshots fall before
    // records four and seven arrive (counter at 3 and 6).
    assert_eq!(snapshots, vec![false, false, false, true, false, false, true]);
    assert_eq!(state.counter, 7);
    assert_eq!(state.records.len(), 7);
}

#[test]
fn checkpoint_kind_by_extension() {
    assert_eq!(checkpoint_kind("out/result.json"), Some(ExportFormat::Json));
    assert_eq!(checkpoint_kind("result.csv"), Some(ExportFormat::Csv));
    assert_eq!(checkpoint_kind("result.txt"), None);
    assert_eq!(checkpoint_kind("noextension"), None);
    assert_eq!(checkpoint_kind(".json"), None);
}

#[test]
fn export_frame_carries_its_frame_bookkeeping() {
    let f = item(1, 0, "a.jpg");
    let meta = plan_image_frame(&f, 640, 480, 640, Some("t".to_string()));
    let ef = make_export_frame(&meta, Vec::new(), vec!["Blank".to_string()]);
    assert_eq!(ef.frame_index, 0);
    assert_eq!(ef.total_frames, 1);
    assert_eq!(ef.label, Some(vec!["Blank".to_string()]));
    assert!(ef.error.is_none());
    assert_eq!(ef.shoot_time.as_deref(), Some("t"));
}
