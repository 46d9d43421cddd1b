use std::io::Write;

use hot_manager::collections::PathMap;
use hot_manager::config::{default_ignore_glob_list, exclude_patterns, to_absolute_paths, Config, ConfigError, RawConfig};
use hot_manager::path::FsPath;

fn p(s: &str) -> FsPath {
    FsPath::parse(s)
}

fn make_file(dir: &std::path::Path, name: &str, content: &str) -> tempfile::NamedTempFile {
    let mut f = tempfile::Builder::new()
        .prefix(name)
        .suffix("")
        .rand_bytes(0)
        .tempfile_in(dir)
        .unwrap();
    f.write_all(content.as_bytes()).unwrap();
    f
}

#[test]
fn test_to_absolute_paths() {
    let hotmanager_config_path = p("/tmp/hotmanager");
    let config_dir = p("/home/user/.config");

    let mut mappings = PathMap::new();
    mappings.insert(p("relative_key"), p("relative_value"));
    mappings.insert(p("/abs/key"), p("/abs/value"));

    let absolute_mappings = to_absolute_paths(mappings, &hotmanager_config_path, &config_dir);

    let expected_key1 = config_dir.join(&p("relative_key"));
    let expected_value1 = hotmanager_config_path.join(&p("relative_value"));
    assert_eq!(absolute_mappings.get(&expected_key1), Some(&expected_value1));

    let expected_key2 = p("/abs/key");
    let expected_value2 = p("/abs/value");
    assert_eq!(absolute_mappings.get(&expected_key2), Some(&expected_value2));
}

#[test]
fn test_config_new_globs() {
    let dir = tempfile::tempdir().unwrap();
    let dll = make_file(dir.path(), "test.dll", "");
    let txt = make_file(dir.path(), "another.txt", "");
    let config_dir = p(dir.path().to_str().unwrap());

    let config = Config::new(
        &config_dir,
        PathMap::new(),
        vec!["**/*.txt".to_string()],
        false,
        false,
        false,
    )
    .unwrap();

    // It should contain the default globs + the custom one
    assert!(config.exclude_set.contains(&config_dir.join(&p("test.dll"))));
    assert!(config.exclude_set.contains(&config_dir.join(&p("another.txt"))));
    drop(dll);
    drop(txt);
}

#[test]
fn to_absolute_paths_text_of_results() {
    let m = {
        let mut m = PathMap::new();
        m.insert(p("app/conf"), p("dotfiles/app.conf"));
        m
    };
    let r = to_absolute_paths(m, &p("/hm"), &p("/cfg"));
    assert_eq!(r.len(), 1);
    assert_eq!(r.get(&p("/cfg/app/conf")).unwrap().to_text(), "/hm/dotfiles/app.conf");
    assert!(r.get(&p("app/conf")).is_none());
}

#[test]
fn to_absolute_paths_keys_resolving_alike_keep_one() {
    let mut m = PathMap::new();
    m.insert(p("a/b"), p("first"));
    m.insert(p("/cfg/a/b"), p("/second"));
    let r = to_absolute_paths(m, &p("/hm"), &p("/cfg"));
    assert_eq!(r.len(), 1);
    let v = r.get(&p("/cfg/a/b")).unwrap().to_text();
    assert!(v == "/hm/first" || v == "/second");
}

#[test]
fn config_new_without_globs_finds_nothing() {
    let dir = tempfile::tempdir().unwrap();
    let _f = make_file(dir.path(), "kept.conf", "x");
    let config_dir = p(dir.path().to_str().unwrap());
    let config = Config::new(&config_dir, PathMap::new(), Vec::new(), true, false, true).unwrap();
    assert!(config.exclude_set.is_empty());
    assert!(config.no_tmp_mappings);
}

#[test]
fn config_new_no_automappings_excludes_everything() {
    let dir = tempfile::tempdir().unwrap();
    let _f = make_file(dir.path(), "kept.conf", "x");
    let config_dir = p(dir.path().to_str().unwrap());
    let config = Config::new(&config_dir, PathMap::new(), Vec::new(), true, true, false).unwrap();
    assert!(config.exclude_set.contains(&config_dir.join(&p("kept.conf"))));
    assert_eq!(config.exclude_set.len(), 1);
}

#[test]
fn config_new_refuses_bad_pattern() {
    let config_dir = p("/nonexistent-dir-for-hot-manager");
    let r = Config::new(&config_dir, PathMap::new(), vec!["a/***".to_string()], true, false, false);
    match r {
        Err(ConfigError::InvalidPattern { pattern }) => {
            assert_eq!(pattern, "/nonexistent-dir-for-hot-manager/a/***")
        },
        Ok(_) => panic!("the pattern should be refused"),
    }
}

#[test]
fn exclude_patterns_order() {
    let cfg = p("/c");
    let pats = exclude_patterns(&cfg, &vec!["x/*".to_string()], false, true);
    assert_eq!(pats.len(), 13);
    assert_eq!(pats[0], "/c/x/*");
    assert_eq!(pats[1], "/c/**/*.dll");
    assert_eq!(pats[11], "/c/sops-nix/**/*");
    assert_eq!(pats[12], "/c/**/*");
    let none = exclude_patterns(&cfg, &Vec::new(), true, false);
    assert!(none.is_empty());
}

#[test]
fn default_globs_listed() {
    let d = default_ignore_glob_list();
    assert_eq!(d.len(), 11);
    assert_eq!(d[0], "**/*.dll");
    assert_eq!(d[8], "obs-studio/plugin_config/**/*");
    assert_eq!(d[9], "steam/**/Singleton*");
}

#[test]
fn config_from_raw_resolves_against_file_dir() {
    let mut mappings = PathMap::new();
    mappings.insert(p("app/conf"), p("dotfiles/app.conf"));
    mappings.insert(p("/abs/path/conf"), p("/abs/dotfiles/conf"));
    let raw = RawConfig {
        exclude: Vec::new(),
        mappings,
        no_default_exclude: true,
        no_automappings: false,
        no_tmp_mappings: false,
    };
    let config = Config::from_raw(&p("/hm/manager.toml"), &p("/nonexistent-cfg"), raw).unwrap();
    assert_eq!(config.mappings.get(&p("/nonexistent-cfg/app/conf")), Some(&p("/hm/dotfiles/app.conf")));
    assert_eq!(config.mappings.get(&p("/abs/path/conf")), Some(&p("/abs/dotfiles/conf")));
    assert!(config.exclude_set.is_empty());
}

#[test]
fn exclude_patterns_keep_the_glob_text() {
    let cfg = p("/c");
    let pats = exclude_patterns(&cfg, &vec!["x/".to_string(), "/abs/*".to_string(), "a//b".to_string()], true, false);
    assert_eq!(pats, vec!["/c/x/", "/abs/*", "/c/a//b"]);
    let root = exclude_patterns(&p("/"), &vec!["y".to_string()], true, false);
    assert_eq!(root, vec!["/y"]);
}
