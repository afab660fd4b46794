use chaser::error::SyncError;
use chaser::target_files::{TargetFile, TargetFileFormat};

#[test]
fn test_target_file_format_detection() {
    assert_eq!(
        TargetFileFormat::from_path("test.json").unwrap(),
        TargetFileFormat::Json
    );
    assert_eq!(
        TargetFileFormat::from_path("test.yaml").unwrap(),
        TargetFileFormat::Yaml
    );
    assert_eq!(
        TargetFileFormat::from_path("test.yml").unwrap(),
        TargetFileFormat::Yaml
    );
    assert_eq!(
        TargetFileFormat::from_path("test.toml").unwrap(),
        TargetFileFormat::Toml
    );
    assert_eq!(
        TargetFileFormat::from_path("test.csv").unwrap(),
        TargetFileFormat::Csv
    );
    assert!(TargetFileFormat::from_path("test.txt").is_err());
}

#[test]
fn test_looks_like_path() {
    assert!(TargetFile::looks_like_path("./test_files/test.txt"));
    assert!(TargetFile::looks_like_path("/home/user/test.txt"));
    assert!(TargetFile::looks_like_path("../relative/path"));
    assert!(TargetFile::looks_like_path("simple/path"));
    assert!(TargetFile::looks_like_path("C:\\Windows\\System32"));
    assert!(!TargetFile::looks_like_path("not a path"));
    assert!(!TargetFile::looks_like_path("123456"));
    assert!(!TargetFile::looks_like_path("config_option"));
}

#[test]
fn test_extract_paths_from_json() {
    let json_content = r#"[
            "./test_files/file1.txt",
            "./test_files/dir",
            "not a path",
            "/absolute/path"
        ]"#;

    let paths = TargetFile::extract_path_strings(TargetFileFormat::Json, json_content).unwrap();
    assert_eq!(paths.len(), 3);
    assert!(paths.iter().any(|p| p == "./test_files/file1.txt"));
    assert!(paths.iter().any(|p| p == "./test_files/dir"));
    assert!(paths.iter().any(|p| p == "/absolute/path"));
}

#[test]
fn test_extract_paths_from_yaml() {
    let yaml_content = r#"
paths:
  - "./test_files/file1.txt"
  - "./test_files/dir"
  - "/absolute/path"
other_field: "value"
"#;

    let paths = TargetFile::extract_path_strings(TargetFileFormat::Yaml, yaml_content).unwrap();
    assert_eq!(paths.len(), 3);
    assert!(paths.iter().any(|p| p == "./test_files/file1.txt"));
    assert!(paths.iter().any(|p| p == "./test_files/dir"));
    assert!(paths.iter().any(|p| p == "/absolute/path"));
}

#[test]
fn test_extract_paths_from_toml() {
    let toml_content = r#"
paths = ["./test_files/file1.txt", "./test_files/dir", "/absolute/path"]
other_field = "value"
"#;

    let paths = TargetFile::extract_path_strings(TargetFileFormat::Toml, toml_content).unwrap();
    assert_eq!(paths.len(), 3);
    assert!(paths.iter().any(|p| p == "./test_files/file1.txt"));
    assert!(paths.iter().any(|p| p == "./test_files/dir"));
    assert!(paths.iter().any(|p| p == "/absolute/path"));
}

#[test]
fn test_extract_paths_from_csv() {
    let csv_content = r#"path,type,description
./test_files/file1.txt,file,Test file
./test_files/dir,directory,Test directory
/absolute/path,file,Absolute path
"#;

    let paths = TargetFile::extract_path_strings(TargetFileFormat::Csv, csv_content).unwrap();
    assert_eq!(paths.len(), 3);
    assert!(paths.iter().any(|p| p == "./test_files/file1.txt"));
    assert!(paths.iter().any(|p| p == "./test_files/dir"));
    assert!(paths.iter().any(|p| p == "/absolute/path"));
}

#[test]
fn test_extract_rejects_malformed_json() {
    let err = TargetFile::extract_path_strings(TargetFileFormat::Json, "[unclosed").unwrap_err();
    assert_eq!(err, SyncError::ParseError);
}

#[test]
fn test_new_detects_unsupported_format() {
    let err = TargetFile::new("notes.txt".to_string(), Some("[]")).unwrap_err();
    assert_eq!(err, SyncError::UnsupportedFormat);
}

#[test]
fn test_new_absent_file_has_no_entries() {
    let tf = TargetFile::new("links.json".to_string(), None).unwrap();
    assert_eq!(tf.paths.len(), 0);
    assert_eq!(tf.format, TargetFileFormat::Json);
}

#[test]
fn test_new_round_trip_keeps_paths() {
    let tf = TargetFile::new(
        "links.json".to_string(),
        Some(r#"["/watch/a.txt", "plain", "/watch/b.txt"]"#),
    )
    .unwrap();
    assert_eq!(tf.paths.len(), 2);
    assert_eq!(tf.paths[0].path, "/watch/a.txt");
    assert_eq!(tf.paths[1].path, "/watch/b.txt");
    assert_eq!(tf.paths[0].last_known_path, None);
}

#[test]
fn test_json_content_update() {
    let content = r#"["./test_files/old_path", "./test_files/keep_path"]"#;
    let updated = TargetFile::rewrite_content(
        TargetFileFormat::Json,
        content,
        "./test_files/old_path",
        "./test_files/new_path",
    )
    .unwrap();
    assert!(updated.contains("./test_files/new_path"));
    assert!(updated.contains("./test_files/keep_path"));
    assert!(!updated.contains("./test_files/old_path"));
}

#[test]
fn test_yaml_content_update() {
    let content = "paths:\n  - \"./test_files/old_path\"\n  - \"./test_files/keep_path\"\nother_field: \"value\"\n";
    let updated = TargetFile::rewrite_content(
        TargetFileFormat::Yaml,
        content,
        "./test_files/old_path",
        "./test_files/new_path",
    )
    .unwrap();
    assert!(updated.contains("./test_files/new_path"));
    assert!(updated.contains("./test_files/keep_path"));
    assert!(!updated.contains("./test_files/old_path"));
    assert!(updated.contains("other_field"));
}

#[test]
fn test_toml_content_update() {
    let content = "paths = [\"./test_files/old_path\", \"./test_files/keep_path\"]\nother_field = \"value\"\n";
    let updated = TargetFile::rewrite_content(
        TargetFileFormat::Toml,
        content,
        "./test_files/old_path",
        "./test_files/new_path",
    )
    .unwrap();
    assert!(updated.contains("./test_files/new_path"));
    assert!(updated.contains("./test_files/keep_path"));
    assert!(!updated.contains("./test_files/old_path"));
    assert!(updated.contains("other_field = \"value\""));
}

#[test]
fn test_csv_content_update() {
    let content = "path,type,description\n./test_files/old_path,file,Old file\n./test_files/keep_path,directory,Keep this\n";
    let updated = TargetFile::update_csv_content(content, "./test_files/old_path", "./test_files/new_path");
    assert!(updated.contains("./test_files/new_path"));
    assert!(updated.contains("./test_files/keep_path"));
    assert!(!updated.contains("./test_files/old_path"));
    assert!(updated.contains("path,type,description"));
}

#[test]
fn test_complex_path_scenarios() {
    let content = r#"["./test_files/path", "./test_files/path_extended", "./test_files/other"]"#;
    let updated = TargetFile::rewrite_content(
        TargetFileFormat::Json,
        content,
        "./test_files/path",
        "./test_files/renamed",
    )
    .unwrap();
    assert!(updated.contains("./test_files/renamed"));
    assert!(updated.contains("./test_files/path_extended"));
    assert!(updated.contains("./test_files/other"));
    assert!(!updated.contains("\"./test_files/path\""));
}

#[test]
fn test_preserves_non_string_scalars() {
    let content = r#"{"paths": ["/watch/x"], "retries": 3, "active": true}"#;
    let updated =
        TargetFile::rewrite_content(TargetFileFormat::Json, content, "/watch/x", "/watch/y")
            .unwrap();
    assert!(updated.contains("/watch/y"));
    assert!(updated.contains("3"));
    assert!(updated.contains("true"));
}

#[test]
fn test_mark_deleted_and_restored() {
    let mut tf = TargetFile::new("links.json".to_string(), Some(r#"["/w/a", "/w/b"]"#)).unwrap();
    tf.mark_path_deleted("/w/a").unwrap();
    assert!(!tf.paths[0].exists);
    tf.mark_path_restored("/w/a").unwrap();
    assert!(tf.paths[0].exists);
}

#[test]
fn test_update_path_records_history() {
    let mut tf = TargetFile::new("links.json".to_string(), Some(r#"["/w/a", "/w/b"]"#)).unwrap();
    tf.update_path("/w/a", "/w/c");
    assert_eq!(tf.paths[0].path, "/w/c");
    assert_eq!(tf.paths[0].last_known_path, Some("/w/a".to_string()));
    assert_eq!(tf.paths[1].path, "/w/b");
    assert_eq!(tf.paths[1].last_known_path, None);
}

#[test]
fn test_empty_skeletons() {
    assert_eq!(TargetFileFormat::Json.empty_skeleton(), "[]");
    assert_eq!(TargetFileFormat::Yaml.empty_skeleton(), "paths: []");
    assert_eq!(TargetFileFormat::Toml.empty_skeleton(), "paths = []");
    assert_eq!(TargetFileFormat::Csv.empty_skeleton(), "path,type\n");
}
