use chaser::config::Config;

#[test]
fn test_config_default() {
    let config = Config::default();
    assert_eq!(config.watch_paths, Vec::<String>::new());
    assert_eq!(config.recursive, true);
    assert_eq!(
        config.ignore_patterns,
        vec!["*.tmp", "*.log", ".git/**", "target/**"]
    );
    assert_eq!(config.language, None);
    assert_eq!(config.target_files, Vec::<String>::new());
}

#[test]
fn test_set_language() {
    let mut config = Config::default();

    let result = config.set_language(Some("en".to_string()));
    assert!(result.is_ok());
    assert_eq!(config.language, Some("en".to_string()));

    let result = config.set_language(None);
    assert!(result.is_ok());
    assert_eq!(config.language, None);
}

#[test]
fn test_config_clone() {
    let config1 = Config::default();
    let config2 = config1.clone();
    assert_eq!(config1, config2);

    let mut config3 = config1.clone();
    config3.recursive = false;
    assert_ne!(config1, config3);
}

#[test]
fn test_config_debug() {
    let config = Config::default();
    let debug_str = format!("{:?}", config);
    assert!(debug_str.contains("Config"));
    assert!(debug_str.contains("watch_paths"));
    assert!(debug_str.contains("recursive"));
}

#[test]
fn test_add_path() {
    let mut config = Config::default();
    let initial_count = config.watch_paths.len();

    assert!(config.add_path("./new_path".to_string()));
    assert_eq!(config.watch_paths.len(), initial_count + 1);
    assert!(config.watch_paths.contains(&"./new_path".to_string()));

    assert!(!config.add_path("./new_path".to_string()));
    assert_eq!(config.watch_paths.len(), initial_count + 1);
}

#[test]
fn test_remove_path() {
    let mut config = Config::default();
    config.watch_paths.push("./removable_path".to_string());
    let initial_count = config.watch_paths.len();

    assert!(config.remove_path("./removable_path"));
    assert_eq!(config.watch_paths.len(), initial_count - 1);
    assert!(!config.watch_paths.contains(&"./removable_path".to_string()));

    assert!(!config.remove_path("./non_existent_path"));
    assert_eq!(config.watch_paths.len(), initial_count - 1);
}

#[test]
fn test_target_file_list() {
    let mut config = Config::default();
    assert!(config.validate_target_files().is_err());

    config.add_target_file("links.json".to_string()).unwrap();
    config.add_target_file("links.json".to_string()).unwrap();
    assert_eq!(config.list_target_files().len(), 1);
    assert!(config.validate_target_files().is_ok());

    config.remove_target_file("links.json").unwrap();
    assert_eq!(config.list_target_files().len(), 0);
    assert!(config.validate_target_files().is_err());
}
