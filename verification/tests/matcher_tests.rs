use chaser::events::{FsEvent, FsEventKind};
use chaser::events::get_event_description;
use chaser::should_ignore_event;

fn create_test_event(paths: Vec<&str>, kind: FsEventKind) -> FsEvent {
    FsEvent { kind, paths: paths.into_iter().map(|p| p.to_string()).collect() }
}

fn patterns(ps: &[&str]) -> Vec<String> {
    ps.iter().map(|p| p.to_string()).collect()
}

#[test]
fn test_should_ignore_event_extension_patterns() {
    let ignore_patterns = patterns(&["*.tmp", "*.log"]);

    let event = create_test_event(vec!["/path/to/file.tmp"], FsEventKind::Create);
    assert!(should_ignore_event(&event, &ignore_patterns));

    let event = create_test_event(vec!["/path/to/file.log"], FsEventKind::Create);
    assert!(should_ignore_event(&event, &ignore_patterns));

    let event = create_test_event(vec!["/path/to/file.txt"], FsEventKind::Create);
    assert!(!should_ignore_event(&event, &ignore_patterns));
}

#[test]
fn test_should_ignore_event_directory_patterns() {
    let ignore_patterns = patterns(&[".git/**", "target/**"]);

    let event = create_test_event(vec!["/project/.git/config"], FsEventKind::Create);
    assert!(should_ignore_event(&event, &ignore_patterns));

    let event = create_test_event(vec!["/project/target/debug/app"], FsEventKind::Create);
    assert!(should_ignore_event(&event, &ignore_patterns));

    let event = create_test_event(vec!["/project/src/main.rs"], FsEventKind::Create);
    assert!(!should_ignore_event(&event, &ignore_patterns));
}

#[test]
fn test_should_ignore_event_substring_patterns() {
    let ignore_patterns = patterns(&["backup", "temp"]);

    let event = create_test_event(vec!["/path/to/backup_file.txt"], FsEventKind::Create);
    assert!(should_ignore_event(&event, &ignore_patterns));

    let event = create_test_event(vec!["/temp/file.txt"], FsEventKind::Create);
    assert!(should_ignore_event(&event, &ignore_patterns));

    let event = create_test_event(vec!["/path/to/normal_file.txt"], FsEventKind::Create);
    assert!(!should_ignore_event(&event, &ignore_patterns));
}

#[test]
fn test_should_ignore_event_multiple_paths() {
    let ignore_patterns = patterns(&["*.tmp"]);

    let event = create_test_event(
        vec!["/path/to/file.txt", "/path/to/file.tmp"],
        FsEventKind::Create,
    );
    assert!(should_ignore_event(&event, &ignore_patterns));

    let event = create_test_event(
        vec!["/path/to/file1.txt", "/path/to/file2.txt"],
        FsEventKind::Create,
    );
    assert!(!should_ignore_event(&event, &ignore_patterns));
}

#[test]
fn test_should_ignore_event_empty_patterns() {
    let ignore_patterns: Vec<String> = Vec::new();

    let event = create_test_event(vec!["/any/file.txt"], FsEventKind::Create);
    assert!(!should_ignore_event(&event, &ignore_patterns));
}

#[test]
fn test_should_ignore_event_empty_paths() {
    let ignore_patterns = patterns(&["*.tmp"]);

    let event = FsEvent { kind: FsEventKind::Create, paths: Vec::new() };
    assert!(!should_ignore_event(&event, &ignore_patterns));
}

#[test]
fn test_get_event_description() {
    let event = create_test_event(vec!["/test"], FsEventKind::Create);
    assert_eq!(get_event_description(&event), "Created");

    let event = create_test_event(vec!["/test"], FsEventKind::Modify);
    assert_eq!(get_event_description(&event), "Modified");

    let event = create_test_event(vec!["/test"], FsEventKind::Remove);
    assert_eq!(get_event_description(&event), "Removed");

    let event = create_test_event(vec!["/test"], FsEventKind::Access);
    assert_eq!(get_event_description(&event), "Accessed");

    let event = create_test_event(vec!["/test"], FsEventKind::Other);
    assert_eq!(get_event_description(&event), "Other");
}

#[test]
fn test_complex_ignore_patterns() {
    let ignore_patterns = patterns(&["*.tmp", ".git/**", "node_modules", "*.log"]);

    let test_cases_ignored = vec![
        "/project/file.tmp",
        "/project/.git/HEAD",
        "/project/.git/objects/abc123",
        "/project/node_modules/package/index.js",
        "/project/logs/app.log",
        "/var/log/system.log",
    ];

    for path in test_cases_ignored {
        let event = create_test_event(vec![path], FsEventKind::Create);
        assert!(
            should_ignore_event(&event, &ignore_patterns),
            "Expected path {} to be ignored",
            path
        );
    }

    let test_cases_not_ignored = vec![
        "/project/src/main.rs",
        "/project/README.md",
        "/project/Cargo.toml",
        "/project/tests/test.rs",
    ];

    for path in test_cases_not_ignored {
        let event = create_test_event(vec![path], FsEventKind::Create);
        assert!(
            !should_ignore_event(&event, &ignore_patterns),
            "Expected path {} not to be ignored",
            path
        );
    }
}

#[test]
fn lib_test_case_sensitivity() {
    let ignore_patterns = patterns(&["*.TMP"]);

    let event = create_test_event(vec!["/file.tmp"], FsEventKind::Create);
    assert!(!should_ignore_event(&event, &ignore_patterns));

    let event = create_test_event(vec!["/file.TMP"], FsEventKind::Create);
    assert!(should_ignore_event(&event, &ignore_patterns));
}
