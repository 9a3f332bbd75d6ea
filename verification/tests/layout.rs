use kreuzberg::layout::{
    config_from_extraction, discover_ort, find_model, join, parse_preset, platform_candidates, verify_checksum,
    Detectron2Variant, DownloadFailure, LayoutDetectionConfig, LayoutError, LayoutModelManager, LayoutPreset,
    ModelAction, ModelEvent, TargetOs,
};

fn manager() -> LayoutModelManager {
    LayoutModelManager::new(Some("/cache".to_string()), None, None)
}

#[test]
fn detectron2_score_outputs() {
    assert_eq!(Detectron2Variant::FasterRcnn.score_output_index(), 2);
    assert_eq!(Detectron2Variant::MaskRcnn.score_output_index(), 3);
}

#[test]
fn paths_are_joined_like_unix_paths() {
    assert_eq!(join("a", "b"), "a/b");
    assert_eq!(join("a/", "b"), "a/b");
    assert_eq!(join("", "b"), "b");
    assert_eq!(join("a", "/b"), "/b");
}

#[test]
fn model_table() {
    let y = find_model("yolo").unwrap();
    assert_eq!(y.model_type, "yolo");
    assert_eq!(y.remote_filename, "yolov10-doclaynet.onnx");
    assert_eq!(y.local_filename, "model.onnx");
    assert_eq!(y.sha256_checksum, "");
    let r = find_model("rtdetr").unwrap();
    assert_eq!(r.remote_filename, "rtdetr-v2-docling.onnx");
    assert!(find_model("detr").is_none());
    assert!(find_model("YOLO").is_none());
}

#[test]
fn checksums() {
    let data = b"abc".to_vec();
    assert!(verify_checksum(&data, "", "m").is_ok());
    let good = "ba7816bf8f01cfea414140de5dae2223b00361a396177a9cb410ff61f20015ad";
    assert!(verify_checksum(&data, good, "m").is_ok());
    match verify_checksum(&data, "00", "yolo") {
        Err(LayoutError::ModelDownload(m)) => assert_eq!(
            m,
            format!("Checksum mismatch for yolo: expected 00, got {}", good)
        ),
        Ok(()) => panic!("a wrong checksum was accepted"),
    }
}

#[test]
fn cache_directories() {
    assert_eq!(manager().cache_dir(), "/cache");
    let from_env = LayoutModelManager::new(None, Some("/var/kz".to_string()), Some("/home/u".to_string()));
    assert_eq!(from_env.cache_dir(), "/var/kz/layout");
    let from_cwd = LayoutModelManager::new(None, None, Some("/home/u".to_string()));
    assert_eq!(from_cwd.cache_dir(), "/home/u/.kreuzberg/layout");
    let fallback = LayoutModelManager::new(None, None, None);
    assert_eq!(fallback.cache_dir(), "./.kreuzberg/layout");
    assert_eq!(manager().yolo_model_path(), "/cache/yolo/model.onnx");
    assert_eq!(manager().rtdetr_model_path(), "/cache/rtdetr/model.onnx");
}

#[test]
fn unknown_model_type_fails() {
    match manager().ensure_model("detr") {
        Err(LayoutError::ModelDownload(m)) => assert_eq!(m, "Unknown model type: detr"),
        Ok(_) => panic!("unknown model accepted"),
    }
}

#[test]
fn cached_model_is_used_as_is() {
    let (mut m, a) = manager().ensure_yolo_model().unwrap();
    match a {
        ModelAction::CheckCached { file } => assert_eq!(file, "/cache/yolo/model.onnx"),
        other => panic!("unexpected first step {:?}", other),
    }
    match m.step(ModelEvent::Cached(true)) {
        ModelAction::Done(Ok(f)) => assert_eq!(f, "/cache/yolo/model.onnx"),
        other => panic!("unexpected step {:?}", other),
    }
}

#[test]
fn missing_model_is_downloaded_and_copied() {
    let (mut m, _) = manager().ensure_rtdetr_model().unwrap();
    match m.step(ModelEvent::Cached(false)) {
        ModelAction::CreateDir { dir } => assert_eq!(dir, "/cache/rtdetr"),
        other => panic!("unexpected step {:?}", other),
    }
    match m.step(ModelEvent::DirCreated(Ok(()))) {
        ModelAction::Download { repo, filename } => {
            assert_eq!(repo, "Kreuzberg/layout-models");
            assert_eq!(filename, "rtdetr-v2-docling.onnx");
        }
        other => panic!("unexpected step {:?}", other),
    }
    match m.step(ModelEvent::Downloaded(Ok("/hub/blob".to_string()))) {
        ModelAction::Copy { from, to } => {
            assert_eq!(from, "/hub/blob");
            assert_eq!(to, "/cache/rtdetr/model.onnx");
        }
        other => panic!("unexpected step {:?}", other),
    }
    match m.step(ModelEvent::Copied(Ok(()))) {
        ModelAction::Done(Ok(f)) => assert_eq!(f, "/cache/rtdetr/model.onnx"),
        other => panic!("unexpected step {:?}", other),
    }
}

#[test]
fn failures_are_reported() {
    let (mut m, _) = manager().ensure_yolo_model().unwrap();
    match m.step(ModelEvent::DirCreated(Err("denied".to_string()))) {
        ModelAction::Done(Err(LayoutError::ModelDownload(e))) => {
            assert_eq!(e, "Failed to create cache dir /cache/yolo: denied")
        }
        other => panic!("unexpected step {:?}", other),
    }
    match m.step(ModelEvent::Downloaded(Err(DownloadFailure::Fetch("timeout".to_string())))) {
        ModelAction::Done(Err(LayoutError::ModelDownload(e))) => assert_eq!(
            e,
            "Failed to download 'yolov10-doclaynet.onnx' from Kreuzberg/layout-models: timeout"
        ),
        other => panic!("unexpected step {:?}", other),
    }
    match m.step(ModelEvent::Downloaded(Err(DownloadFailure::ApiInit("no home".to_string())))) {
        ModelAction::Done(Err(LayoutError::ModelDownload(e))) => {
            assert_eq!(e, "Failed to initialize HF Hub API: no home")
        }
        other => panic!("unexpected step {:?}", other),
    }
    match m.step(ModelEvent::FileRead(Err("gone".to_string()))) {
        ModelAction::Done(Err(LayoutError::ModelDownload(e))) => {
            assert_eq!(e, "Failed to read file for checksum: gone")
        }
        other => panic!("unexpected step {:?}", other),
    }
    match m.step(ModelEvent::Copied(Err("disk full".to_string()))) {
        ModelAction::Done(Err(LayoutError::ModelDownload(e))) => {
            assert_eq!(e, "Failed to copy model to /cache/yolo/model.onnx: disk full")
        }
        other => panic!("unexpected step {:?}", other),
    }
}

#[test]
fn presets_and_engine_config() {
    assert_eq!(parse_preset("accurate"), LayoutPreset::Accurate);
    assert_eq!(parse_preset("fast"), LayoutPreset::Fast);
    assert_eq!(parse_preset("Accurate"), LayoutPreset::Fast);
    let c = config_from_extraction(&LayoutDetectionConfig {
        preset: "accurate".to_string(),
        confidence_threshold_millis: Some(450),
        apply_heuristics: false,
    });
    assert_eq!(c.preset, LayoutPreset::Accurate);
    assert_eq!(c.confidence_threshold_millis, Some(450));
    assert!(!c.apply_heuristics);
}

#[test]
fn runtime_discovery() {
    let linux = platform_candidates(TargetOs::Linux);
    assert_eq!(linux.len(), 4);
    assert_eq!(linux[0], "/usr/lib/libonnxruntime.so");
    assert_eq!(platform_candidates(TargetOs::MacOs)[0], "/opt/homebrew/lib/libonnxruntime.dylib");
    assert_eq!(platform_candidates(TargetOs::Windows).len(), 2);
    assert!(platform_candidates(TargetOs::Other).is_empty());
    assert_eq!(discover_ort(true, &linux, &vec![false; 4]), Ok(None));
    assert_eq!(
        discover_ort(false, &linux, &vec![false, false, true, true]),
        Ok(Some("/usr/lib/x86_64-linux-gnu/libonnxruntime.so"))
    );
    assert_eq!(
        discover_ort(false, &linux, &vec![false; 4]),
        Err("ONNX Runtime library not found in common installation paths")
    );
}

#[test]
fn the_two_models_are_cached_apart() {
    for dir in ["", "/", "/cache", "relative/dir/"] {
        let m = LayoutModelManager::new(Some(dir.to_string()), None, None);
        assert_ne!(m.rtdetr_model_path(), m.yolo_model_path());
    }
}
