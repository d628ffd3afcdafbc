use camtrap::checkpoint::ExportFormat;
use camtrap::detect::{
    is_rtdetr, orig_target_sizes_row, parse_device_id, remaining_timeout, session_plan, Batcher,
    DetectConfig,
};
use camtrap::ep::{build_device_table, AdapterProbe, CudaProbe, DeviceType};
use camtrap::indexer::{index_files_and_folders, is_skip, is_video_photo, TreeNode};
use camtrap::io::staged_name;
use camtrap::media::{choose_shoot_time, earlier_timestamp};
use camtrap::utils::{Ep, ModelConfig};
use camtrap::{plan_pipeline, Config, ConfigError, ConfigOptions, DetectOptions, EpConfig,
    ProgressTracker};

fn config(check_point: usize, batch: usize, workers: &[usize]) -> Config {
    Config {
        detect_options: DetectOptions {
            selected_folder: "media".to_string(),
            model: "model/config.toml".to_string(),
            resume_path: None,
            guess: false,
            ep: workers
                .iter()
                .map(|w| EpConfig {
                    ep: Ep::Cpu,
                    workers: *w,
                    device: "cpu".to_string(),
                    id: "cpu".to_string(),
                })
                .collect(),
        },
        config_options: ConfigOptions {
            confidence_threshold: 5000,
            iou_threshold: 4500,
            export_format: ExportFormat::Json,
            max_frames: Some(10),
            iframe_only: false,
            check_point: check_point,
            buffer_path: None,
            buffer_size: 16,
            batch_size: batch,
        },
    }
}

#[test]
fn pipeline_plan_sizes_the_frame_channel() {
    let plan = plan_pipeline(&config(100, 4, &[2, 3])).expect("valid config");
    assert_eq!(plan.worker_sum, 5);
    assert_eq!(plan.frame_channel_capacity, 40);
    assert_eq!(plan.export_workers, 4);
    assert_eq!(plan.detect_timeout_ms, 50);
}

#[test]
fn zero_checkpoint_is_refused() {
    match plan_pipeline(&config(0, 4, &[1])) {
        Err(ConfigError::ZeroCheckpoint) => {}
        _ => panic!("a zero snapshot interval must be refused"),
    }
}

#[test]
fn progress_reports_percent() {
    let mut p = ProgressTracker::new(8);
    assert_eq!(p.tick(), 12);
    assert_eq!(p.tick(), 25);
    for _ in 0..6 {
        p.tick();
    }
    assert_eq!(p.done, 8);
}

#[test]
fn batcher_flushes_on_full_batch() {
    let mut b: Batcher<u32> = Batcher::new(3);
    assert!(b.push(1).is_none());
    assert!(b.push(2).is_none());
    let batch = b.push(3).expect("third frame fills the batch");
    assert_eq!(batch, vec![1, 2, 3]);
    assert!(b.push(4).is_none());
    let rest = b.flush();
    assert_eq!(rest, vec![4]);
    assert!(b.flush().is_empty());
}

#[test]
fn remaining_timeout_saturates() {
    assert_eq!(remaining_timeout(50, 20), 30);
    assert_eq!(remaining_timeout(50, 50), 0);
    assert_eq!(remaining_timeout(50, 80), 0);
}

#[test]
fn rtdetr_models_are_recognized_by_name() {
    assert!(is_rtdetr("rtdetr-l"));
    assert!(is_rtdetr("my-rtdetr-v2"));
    assert!(!is_rtdetr("yolov8n"));
}

#[test]
fn rtdetr_target_sizes_duplicate_the_longer_side() {
    assert_eq!(orig_target_sizes_row(1920, 1080), (1920, 1920));
    assert_eq!(orig_target_sizes_row(480, 640), (640, 640));
}

fn detect_config(ep: Ep, device: &str, name: &str) -> DetectConfig {
    DetectConfig {
        ep,
        device: device.to_string(),
        model_path: "models/best.onnx".to_string(),
        target_size: 640,
        class_map: vec!["Animal".to_string()],
        conf_thres: 5000,
        iou_thres: 4500,
        batch_size: 4,
        timeout: 50,
        model_name: name.to_string(),
    }
}

#[test]
fn tensorrt_session_gets_profiles_and_caches() {
    let plan = session_plan(&detect_config(Ep::TensorRT, "1", "yolo"));
    assert_eq!(plan.profile_min, "images:1x3x640x640");
    assert_eq!(plan.profile_opt, "images:2x3x640x640");
    assert_eq!(plan.profile_max, "images:5x3x640x640");
    assert!(plan.engine_cache && plan.timing_cache && plan.fp16);
    assert_eq!(plan.device_id, 1);
    assert_eq!(plan.cache_dir, "models");
}

#[test]
fn openvino_session_uppercases_the_device_type() {
    let plan = session_plan(&detect_config(Ep::OpenVINO, "gpu", "yolo"));
    assert_eq!(plan.device_type_upper, "GPU");
}

#[test]
fn device_ids_parse_with_zero_fallback() {
    assert_eq!(parse_device_id("3"), 3);
    assert_eq!(parse_device_id("cpu"), 0);
    assert_eq!(parse_device_id(""), 0);
    assert_eq!(parse_device_id("2x"), 0);
}

#[test]
fn device_table_deduplicates_names() {
    let adapters = vec![
        AdapterProbe { name: "Intel Iris Xe".to_string(), pnp_device_id: "PCI-0".to_string() },
        AdapterProbe { name: "Intel Iris Xe".to_string(), pnp_device_id: "PCI-1".to_string() },
        AdapterProbe { name: "Virtual".to_string(), pnp_device_id: "USB-0".to_string() },
        AdapterProbe { name: "NVIDIA Card A".to_string(), pnp_device_id: "PCI-2".to_string() },
    ];
    let cuda = vec![
        CudaProbe { name: "Card A".to_string(), cc_major: 7, cc_minor: 5 },
        CudaProbe { name: "Card B".to_string(), cc_major: 8, cc_minor: 0 },
    ];
    let table = build_device_table(adapters, cuda);
    let keys: Vec<&str> = table.iter().map(|e| e.key.as_str()).collect();
    assert_eq!(keys, vec!["CPU", "Intel Iris Xe", "Intel Iris Xe:1", "Card A", "Card B"]);
    assert_eq!(table[0].device.device_type, DeviceType::Cpu);
    // Intel adapters get OpenVINO plus DirectML.
    assert_eq!(table[1].device.ep.len(), 2);
    assert_eq!(table[1].device.ep[0].ep, Ep::OpenVINO);
    assert_eq!(table[1].device.ep[1].ep, Ep::DirectML);
    // Capability 7.5 offers TensorRT; 8.0 does not pass the minor-version gate.
    assert_eq!(table[3].device.ep[0].ep, Ep::TensorRT);
    assert_eq!(table[4].device.ep.len(), 1);
    assert_eq!(table[4].device.ep[0].ep, Ep::CUDA);
}

fn file(name: &str, dir: &str) -> TreeNode {
    TreeNode {
        name: name.to_string(),
        path: format!("{}/{}", dir, name),
        is_dir: false,
        children: Vec::new(),
    }
}

#[test]
fn indexer_skips_sorted_outputs_and_hidden_entries() {
    let root = TreeNode {
        name: "media".to_string(),
        path: "media".to_string(),
        is_dir: true,
        children: vec![
            TreeNode {
                name: "Animal".to_string(),
                path: "media/Animal".to_string(),
                is_dir: true,
                children: vec![file("kept.jpg", "media/Animal")],
            },
            file(".hidden.jpg", "media"),
            file("result.csv", "media"),
            file("a.JPG", "media"),
            file("notes.txt", "media"),
            TreeNode {
                name: "day2".to_string(),
                path: "media/day2".to_string(),
                is_dir: true,
                children: vec![file("clip.mov", "media/day2")],
            },
        ],
    };
    let items = index_files_and_folders(&root).expect("small tree");
    let paths: Vec<&str> = items.iter().map(|i| i.file_path.as_str()).collect();
    assert_eq!(paths, vec!["media/a.JPG", "media/day2/clip.mov"]);
    assert_eq!(items[0].file_id, 0);
    assert_eq!(items[1].file_id, 1);
    // The root is folder 1, `day2` is folder 2; the skipped directory is
    // never entered and never numbered.
    assert_eq!(items[0].folder_id, 1);
    assert_eq!(items[1].folder_id, 2);
    assert_eq!(items[0].tmp_path, items[0].file_path);
}

#[test]
fn media_extensions_match_case_insensitively() {
    assert!(is_video_photo("a/b.JPG"));
    assert!(is_video_photo("a/b.jpeg"));
    assert!(is_video_photo("a/b.Mp4"));
    assert!(is_video_photo("a/b.mov"));
    assert!(!is_video_photo("a/b.txt"));
    assert!(!is_video_photo("a/noext"));
    assert!(!is_video_photo("a/.jpg"));
}

#[test]
fn skip_names() {
    assert!(is_skip("Animal"));
    assert!(is_skip("Person"));
    assert!(is_skip("Vehicle"));
    assert!(is_skip("Blank"));
    assert!(is_skip("result.csv"));
    assert!(is_skip("result.json"));
    assert!(is_skip(".DS_Store"));
    assert!(!is_skip("day2"));
}

#[test]
fn staged_names_are_unique_names_with_the_source_extension() {
    let a = staged_name("jpg");
    let b = staged_name("jpg");
    assert_eq!(a.chars().count(), 40);
    assert!(a.ends_with(".jpg"));
    assert!(b.ends_with(".jpg"));
    assert_ne!(a, b);
}

#[test]
fn shoot_time_prefers_the_original_tag() {
    assert_eq!(
        choose_shoot_time(Some("a".to_string()), Some("b".to_string())),
        Some("a".to_string())
    );
    assert_eq!(choose_shoot_time(None, Some("b".to_string())), Some("b".to_string()));
    assert_eq!(choose_shoot_time(None, None), None);
    assert_eq!(earlier_timestamp(100, 50), 50);
    assert_eq!(earlier_timestamp(-5, 3), -5);
}

#[test]
fn model_config_class_map_is_by_index() {
    let mc = ModelConfig {
        name: "yolo".to_string(),
        path: "best.onnx".to_string(),
        imgsz: 640,
        classes: vec!["Animal".to_string(), "Person".to_string()],
    };
    let map = mc.class_map();
    assert_eq!(map.len(), 2);
    assert_eq!(map.get(&0).map(|s| s.as_str()), Some("Animal"));
    assert_eq!(map.get(&1).map(|s| s.as_str()), Some("Person"));
    let mc2 = mc.clone();
    assert!(mc == mc2);
}
