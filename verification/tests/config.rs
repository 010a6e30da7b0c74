use float_read::config::{
    config_file_in, config_file_with, default_config_path, join_file, resolve_config_path, AppConfig, DEFAULT_FONT_FAMILY, DEFAULT_FONT_SIZE,
    MAX_FONT_SIZE, MIN_FONT_SIZE,
};

#[test]
fn normalized_clamps_font_size_and_progress() {
    let mut cfg = AppConfig {
        font_family: "  ".into(),
        font_size: 99,
        recent_files: vec!["a".into(), "a".into(), "b".into(), "a".into()],
    };
    cfg = cfg.normalized();
    assert_eq!(cfg.font_family, DEFAULT_FONT_FAMILY);
    assert_eq!(cfg.font_size, MAX_FONT_SIZE);
    assert_eq!(cfg.recent_files, vec!["a".to_string(), "b".to_string()]);
}

#[test]
fn small_font_sizes_are_raised() {
    let cfg = AppConfig { font_family: "Menlo".into(), font_size: 3, recent_files: vec![] }.normalized();
    assert_eq!(cfg.font_size, MIN_FONT_SIZE);
    assert_eq!(cfg.font_family, "Menlo");
}

#[test]
fn recent_files_are_capped_at_ten() {
    let files: Vec<String> = (0..15).map(|i| format!("/f{i}.txt")).collect();
    let cfg = AppConfig { font_family: "x".into(), font_size: 20, recent_files: files.clone() }.normalized();
    assert_eq!(cfg.recent_files, files[..10].to_vec());
    assert_eq!(cfg.font_size, 20);
}

#[test]
fn normalizing_twice_changes_nothing() {
    let once = AppConfig {
        font_family: "\t".into(),
        font_size: 7,
        recent_files: vec!["b".into(), "a".into(), "b".into()],
    }
    .normalized();
    let twice = AppConfig {
        font_family: once.font_family.clone(),
        font_size: once.font_size,
        recent_files: once.recent_files.clone(),
    }
    .normalized();
    assert_eq!(once.font_family, twice.font_family);
    assert_eq!(once.font_size, twice.font_size);
    assert_eq!(once.recent_files, twice.recent_files);
}

#[test]
fn default_settings() {
    let cfg = AppConfig::default();
    assert_eq!(cfg.font_family, "PingFang SC");
    assert_eq!(cfg.font_size, DEFAULT_FONT_SIZE);
    assert!(cfg.recent_files.is_empty());
}

#[test]
fn config_file_paths() {
    assert_eq!(config_file_in("/cfg"), "/cfg/float-read.json");
    assert_eq!(config_file_in("/cfg/"), "/cfg/float-read.json");
    assert_eq!(config_file_in(""), "float-read.json");
    assert_eq!(resolve_config_path(Some("/d"), "/home/x"), "/d/float-read.json");
    assert_eq!(
        resolve_config_path(None, "/Users/u"),
        "/Users/u/Library/Application Support/com.floatread.app/float-read.json"
    );
}

#[test]
fn default_settings_file_under_home() {
    assert_eq!(
        default_config_path("/Users/u/"),
        "/Users/u/Library/Application Support/com.floatread.app/float-read.json"
    );
    assert_eq!(
        default_config_path(""),
        "Library/Application Support/com.floatread.app/float-read.json"
    );
}

#[test]
fn bare_drive_gets_no_separator() {
    assert_eq!(config_file_with("C:", true), "C:float-read.json");
    assert_eq!(config_file_with("c:", true), "c:float-read.json");
    assert_eq!(config_file_with("C:", false), "C:/float-read.json");
    assert_eq!(config_file_with("1:", true), "1:\\float-read.json");
    assert_eq!(join_file("C:\\Users\\u", "x/y.json", true), "C:\\Users\\u\\x/y.json");
}

#[test]
fn config_file_lies_in_its_folder() {
    let p = config_file_in("/Users/me/Library/Application Support/com.floatread.app");
    assert_eq!(p, "/Users/me/Library/Application Support/com.floatread.app/float-read.json");
    assert_eq!(
        float_read::paths::parent_of(&p),
        "/Users/me/Library/Application Support/com.floatread.app"
    );
}

#[test]
fn settings_file_with_backslash_separators() {
    assert_eq!(config_file_with("C:\\cfg", true), "C:\\cfg\\float-read.json");
    assert_eq!(config_file_with("C:\\cfg\\", true), "C:\\cfg\\float-read.json");
    assert_eq!(config_file_with("C:/cfg/", true), "C:/cfg/float-read.json");
    assert_eq!(config_file_with("/cfg\\", false), "/cfg\\/float-read.json");
    assert_eq!(config_file_with("", true), "float-read.json");
}
