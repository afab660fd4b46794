use chaser::events::{FsEvent, FsEventKind};
use chaser::path_sync::{PathSyncManager, PathRewrite};
use chaser::target_files::{TargetFile, TargetFileFormat};

fn manager_over(contents: &[(&str, &str)], roots: &[&str]) -> PathSyncManager {
    let files: Vec<TargetFile> = contents
        .iter()
        .map(|(loc, content)| TargetFile::new(loc.to_string(), Some(content)).unwrap())
        .collect();
    PathSyncManager::new(files, roots.iter().map(|r| r.to_string()).collect())
}

fn apply_plan(format: TargetFileFormat, content: &str, plan: &[PathRewrite]) -> String {
    let mut text = content.to_string();
    for step in plan {
        text = TargetFile::rewrite_content(format, &text, &step.old_path, &step.new_path).unwrap();
    }
    text
}

#[test]
fn test_filter_paths_in_watch_dirs() {
    let tf = TargetFile::new(
        "links.json".to_string(),
        Some(r#"["/watch/inside.txt", "/elsewhere/outside.txt"]"#),
    )
    .unwrap();
    let filtered =
        PathSyncManager::filter_paths_in_watch_dirs(&tf.paths, &vec!["/watch".to_string()]);
    assert_eq!(filtered.len(), 1);
    assert!(filtered[0].path.contains("inside.txt"));
}

#[test]
fn test_manager_indexes_only_rooted_paths() {
    let m = manager_over(
        &[("links.json", r#"["/watch/a.txt", "/other/b.txt"]"#)],
        &["/watch"],
    );
    assert_eq!(m.target_files.len(), 1);
    assert_eq!(m.target_files[0].paths.len(), 2);
    assert_eq!(m.path_mappings.len(), 1);
    assert_eq!(m.path_mappings[0].current_path, "/watch/a.txt");
}

#[test]
fn test_shared_path_fans_into_one_mapping() {
    let m = manager_over(
        &[
            ("a.json", r#"["/watch/shared.txt"]"#),
            ("b.json", r#"["/watch/shared.txt"]"#),
        ],
        &["/watch"],
    );
    assert_eq!(m.path_mappings.len(), 1);
    assert_eq!(m.path_mappings[0].target_files, vec![0, 1]);
}

#[test]
fn test_sync_path_change() {
    let content = r#"["/watch/old.txt"]"#;
    let mut m = manager_over(&[("links.json", content)], &["/watch"]);

    let plan = m.sync_path_change("/watch/old.txt", "/watch/new.txt");
    assert_eq!(plan.len(), 1);
    assert_eq!(plan[0].file_location, "links.json");

    let updated = apply_plan(TargetFileFormat::Json, content, &plan);
    assert!(updated.contains("new.txt"));
    assert!(!updated.contains("old.txt"));

    assert_eq!(m.path_mappings.len(), 1);
    assert_eq!(m.path_mappings[0].current_path, "/watch/new.txt");
    assert_eq!(m.target_files[0].paths[0].path, "/watch/new.txt");
}

#[test]
fn test_sync_directory_rename_updates_subdirectories() {
    let content = r#"["/watch/src", "/watch/src/main.x"]"#;
    let mut m = manager_over(&[("links.json", content)], &["/watch"]);
    assert_eq!(m.path_mappings.len(), 2);

    let plan = m.sync_path_change("/watch/src", "/watch/source");
    let updated = apply_plan(TargetFileFormat::Json, content, &plan);

    assert!(updated.contains("/watch/source"));
    assert!(updated.contains("/watch/source/main.x"));
    assert!(!updated.contains("\"/watch/src\""));
    assert!(!updated.contains("\"/watch/src/main.x\""));

    let mut keys: Vec<String> =
        m.path_mappings.iter().map(|p| p.current_path.clone()).collect();
    keys.sort();
    assert_eq!(keys, vec!["/watch/source".to_string(), "/watch/source/main.x".to_string()]);
}

#[test]
fn test_sync_nested_directory_rename() {
    let content = r#"["/w/test_files", "/w/test_files/src", "/w/test_files/src/main.x", "/w/test_files/src/components/button.x"]"#;
    let mut m = manager_over(&[("links.json", content)], &["/w"]);
    assert_eq!(m.path_mappings.len(), 4);

    let plan = m.sync_path_change("/w/test_files/src", "/w/test_files/source");
    let updated = apply_plan(TargetFileFormat::Json, content, &plan);

    assert!(updated.contains("/w/test_files/source"));
    assert!(!updated.contains("/src/"));
    assert!(updated.contains("/w/test_files/source/main.x"));
    assert!(updated.contains("/w/test_files/source/components/button.x"));
    assert!(!updated.contains("\"/w/test_files/src/main.x\""));
}

#[test]
fn test_sync_untracked_path_is_noop() {
    let content = r#"["/watch/kept.txt"]"#;
    let mut m = manager_over(&[("links.json", content)], &["/watch"]);
    let before: Vec<String> = m.path_mappings.iter().map(|p| p.current_path.clone()).collect();

    let plan = m.sync_path_change("/watch/absent.txt", "/watch/other.txt");
    assert!(plan.is_empty());
    let after: Vec<String> = m.path_mappings.iter().map(|p| p.current_path.clone()).collect();
    assert_eq!(before, after);
}

#[test]
fn test_sync_same_path_keeps_canonical_bytes() {
    let raw = r#"["/watch/p.txt"]"#;
    let canonical =
        TargetFile::rewrite_content(TargetFileFormat::Json, raw, "/watch/p.txt", "/watch/p.txt")
            .unwrap();
    let again = TargetFile::rewrite_content(
        TargetFileFormat::Json,
        &canonical,
        "/watch/p.txt",
        "/watch/p.txt",
    )
    .unwrap();
    assert_eq!(canonical, again);

    let mut m = manager_over(&[("links.json", raw)], &["/watch"]);
    let keys_before: Vec<String> =
        m.path_mappings.iter().map(|p| p.current_path.clone()).collect();
    let _plan = m.sync_path_change("/watch/p.txt", "/watch/p.txt");
    let keys_after: Vec<String> =
        m.path_mappings.iter().map(|p| p.current_path.clone()).collect();
    assert_eq!(keys_before, keys_after);
}

#[test]
fn test_scenario_yaml_sibling_untouched() {
    let content = "paths: [\"/watch/src\", \"/watch/src/a.x\", \"/watch/other\"]\n";
    let mut m = manager_over(&[("links.yaml", content)], &["/watch"]);
    assert_eq!(m.path_mappings.len(), 3);

    let plan = m.sync_path_change("/watch/src", "/watch/source");
    let updated = apply_plan(TargetFileFormat::Yaml, content, &plan);

    assert!(updated.contains("/watch/source"));
    assert!(updated.contains("/watch/source/a.x"));
    assert!(updated.contains("/watch/other"));
    assert!(!updated.contains("/watch/src\n"));

    let mut keys: Vec<String> =
        m.path_mappings.iter().map(|p| p.current_path.clone()).collect();
    keys.sort();
    assert_eq!(
        keys,
        vec![
            "/watch/other".to_string(),
            "/watch/source".to_string(),
            "/watch/source/a.x".to_string(),
        ]
    );
}

#[test]
fn test_remove_then_create_event_round_trip() {
    let content = r#"["/watch/tracked.txt"]"#;
    let mut m = manager_over(&[("links.json", content)], &["/watch"]);
    assert_eq!(m.path_mappings.len(), 1);

    let remove = FsEvent { kind: FsEventKind::Remove, paths: vec!["/watch/tracked.txt".to_string()] };
    m.handle_event(&remove);
    assert!(!m.path_mappings[0].exists);
    assert!(!m.target_files[0].paths[0].exists);
    assert_eq!(m.path_mappings.len(), 1);

    let create = FsEvent { kind: FsEventKind::Create, paths: vec!["/watch/tracked.txt".to_string()] };
    m.handle_event(&create);
    assert!(m.path_mappings[0].exists);
    assert!(m.target_files[0].paths[0].exists);
}

#[test]
fn test_modify_event_changes_nothing() {
    let content = r#"["/watch/tracked.txt"]"#;
    let mut m = manager_over(&[("links.json", content)], &["/watch"]);
    let before: Vec<String> = m.path_mappings.iter().map(|p| p.current_path.clone()).collect();

    let modify = FsEvent { kind: FsEventKind::Modify, paths: vec!["/watch/tracked.txt".to_string()] };
    m.handle_event(&modify);
    let after: Vec<String> = m.path_mappings.iter().map(|p| p.current_path.clone()).collect();
    assert_eq!(before, after);
}

#[test]
fn test_refresh_rebuilds_index() {
    let mut m = manager_over(&[("links.json", r#"["/watch/a.txt"]"#)], &["/watch"]);
    assert_eq!(m.path_mappings.len(), 1);

    let reloaded =
        vec![TargetFile::new("links.json".to_string(), Some(r#"["/watch/b.txt"]"#)).unwrap()];
    m.refresh(reloaded);
    assert_eq!(m.path_mappings.len(), 1);
    assert_eq!(m.path_mappings[0].current_path, "/watch/b.txt");
}

#[test]
fn test_get_path_status_lists_owners() {
    let m = manager_over(&[("dir/links.json", r#"["/watch/a.txt"]"#)], &["/watch"]);
    let status = m.get_path_status();
    assert_eq!(status.len(), 1);
    assert_eq!(status[0].0, "/watch/a.txt");
    assert_eq!(status[0].2, vec!["links.json".to_string()]);
}

#[test]
fn test_plan_covers_every_owner() {
    let content_a = r#"["/watch/shared.txt"]"#;
    let content_b = r#"["/watch/shared.txt"]"#;
    let mut m = manager_over(&[("a.json", content_a), ("b.json", content_b)], &["/watch"]);

    let plan = m.sync_path_change("/watch/shared.txt", "/watch/moved.txt");
    assert_eq!(plan.len(), 2);
    let mut locations: Vec<String> = plan.iter().map(|p| p.file_location.clone()).collect();
    locations.sort();
    assert_eq!(locations, vec!["a.json".to_string(), "b.json".to_string()]);
    for step in &plan {
        assert_eq!(step.old_path, "/watch/shared.txt");
        assert_eq!(step.new_path, "/watch/moved.txt");
    }
}

#[test]
fn test_trailing_slash_root_still_matches() {
    let m = manager_over(&[("links.json", r#"["/watch/a.txt"]"#)], &["/watch/"]);
    assert_eq!(m.path_mappings.len(), 1);
    assert_eq!(m.path_mappings[0].current_path, "/watch/a.txt");
}

#[test]
fn test_sync_repoints_entries_in_every_owner() {
    let content = r#"["/watch/src", "/watch/src/a.x", "/watch/other"]"#;
    let mut m = manager_over(&[("links.json", content)], &["/watch"]);

    let _plan = m.sync_path_change("/watch/src", "/watch/source");
    let paths: Vec<String> =
        m.target_files[0].paths.iter().map(|e| e.path.clone()).collect();
    assert_eq!(
        paths,
        vec![
            "/watch/source".to_string(),
            "/watch/source/a.x".to_string(),
            "/watch/other".to_string(),
        ]
    );
    assert_eq!(
        m.target_files[0].paths[0].last_known_path,
        Some("/watch/src".to_string())
    );
    assert_eq!(m.target_files[0].paths[2].last_known_path, None);
}

#[test]
fn test_csv_round_trip_through_manager() {
    let content = "path,type\n/watch/old.txt,file\n/watch/keep.txt,file\n";
    let mut m = manager_over(&[("links.csv", content)], &["/watch"]);
    assert_eq!(m.path_mappings.len(), 2);

    let plan = m.sync_path_change("/watch/old.txt", "/watch/new.txt");
    let updated = apply_plan(TargetFileFormat::Csv, content, &plan);
    assert!(updated.contains("/watch/new.txt,file"));
    assert!(updated.contains("/watch/keep.txt,file"));
    assert!(!updated.contains("/watch/old.txt"));
    assert!(updated.starts_with("path,type\n"));
}
