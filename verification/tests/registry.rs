use coppa::link::registry::{FileEntry, ModelRegistry};

fn file(stem: &str, extension: &str) -> FileEntry {
    FileEntry {
        path: format!("/models/{}.{}", stem, extension),
        stem: Some(stem.to_string()),
        extension: Some(extension.to_string()),
    }
}

#[test]
fn test_registry_empty_dir() {
    let registry = ModelRegistry::new("/models".to_string(), &[]);
    assert_eq!(registry.count(), 0);
    assert!(registry.list_models().is_empty());
    assert!(registry.get_model("anything").is_none());
    assert_eq!(registry.model_dir(), "/models");
}

#[test]
fn test_registry_with_onnx_files() {
    let files = [
        file("predictor_v1", "onnx"),
        file("predictor_v2", "onnx"),
        file("not_a_model", "txt"),
    ];
    let registry = ModelRegistry::new("/models".to_string(), &files);
    assert_eq!(registry.count(), 2);

    let model = registry.get_model("predictor_v1");
    assert!(model.is_some());
    assert_eq!(model.unwrap().model_type, "onnx");
    assert_eq!(model.unwrap().path, "/models/predictor_v1.onnx");

    assert!(registry.get_model("not_a_model").is_none());
}

#[test]
fn test_registry_refresh() {
    let mut registry = ModelRegistry::new("/models".to_string(), &[]);
    assert_eq!(registry.count(), 0);
    registry.refresh(&[file("new_model", "onnx")]);
    assert_eq!(registry.count(), 1);
}

#[test]
fn the_first_of_two_models_with_one_name_is_found() {
    let mut second = file("m", "onnx");
    second.path = "/models/other/m.onnx".to_string();
    let registry = ModelRegistry::new("/models".to_string(), &[file("m", "onnx"), second]);
    assert_eq!(registry.get_model("m").unwrap().path, "/models/m.onnx");
    assert_eq!(ModelRegistry::scan_directory(&[]).len(), 0);
}
