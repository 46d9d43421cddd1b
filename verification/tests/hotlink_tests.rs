use std::io::Write;

use hot_manager::hotlink::{backup_path, hotlink, HotlinkError, HotlinkRegistry};
use hot_manager::path::FsPath;

fn p(s: &str) -> FsPath {
    FsPath::parse(s)
}

fn make_file(dir: &std::path::Path, name: &str, content: &str) -> tempfile::NamedTempFile {
    let mut f = tempfile::Builder::new()
        .prefix(name)
        .suffix("")
        .rand_bytes(0)
        .tempfile_in(dir)
        .unwrap();
    f.write_all(content.as_bytes()).unwrap();
    f
}

/// Hotlinks the two paths, reading from the disk what the decision needs.
fn hotlink_on_disk(original: &std::path::Path, config: &std::path::Path) -> Result<(), HotlinkError> {
    let original_path = p(original.to_str().unwrap());
    let backup = backup_path(&original_path).unwrap();
    let backup_exists = std::path::Path::new(&backup.to_text()).exists();
    hotlink(
        original_path,
        p(config.to_str().unwrap()),
        original.is_file(),
        config.is_file(),
        backup_exists,
    )
    .map(|_| ())
}

#[test]
fn test_hotlink_original_not_a_file() {
    let dir = tempfile::tempdir().unwrap();
    let original_file_path = dir.path().join("original.conf");
    let config_path = dir.path().join("config.conf");
    let _c = make_file(dir.path(), "config.conf", "new content");

    let result = hotlink_on_disk(&original_file_path, &config_path);
    assert!(matches!(result, Err(HotlinkError::OriginalIsNotAFile { .. })));
}

#[test]
fn test_hotlink_new_not_a_file() {
    let dir = tempfile::tempdir().unwrap();
    let original_file_path = dir.path().join("original.conf");
    let _o = make_file(dir.path(), "original.conf", "original content");
    let config_path = dir.path().join("config.conf");

    let result = hotlink_on_disk(&original_file_path, &config_path);
    assert!(matches!(result, Err(HotlinkError::NewIsNotAFile { .. })));
}

#[test]
fn test_hotlink_already_exists() {
    let dir = tempfile::tempdir().unwrap();
    let original_file_path = dir.path().join("original.conf");
    let config_path = dir.path().join("config.conf");

    let _o = make_file(dir.path(), "original.conf", "original content");
    let _c = make_file(dir.path(), "config.conf", "new content");
    let _b = make_file(dir.path(), "original.conf.hotlink", "backup content");

    let result = hotlink_on_disk(&original_file_path, &config_path);
    assert!(matches!(result, Err(HotlinkError::HotlinkedFileExists { .. })));
}

#[test]
fn hotlink_succeeds_with_free_backup() {
    let h = hotlink(p("/d/original.conf"), p("/d/config.conf"), true, true, false).unwrap();
    assert_eq!(h.original_file_path().to_text(), "/d/original.conf");
    assert_eq!(h.config_path().to_text(), "/d/config.conf");
    assert_eq!(h.original_file_backed_path().to_text(), "/d/original.conf.hotlink");
    assert_eq!(h.restore_path().to_text(), "/d/original.conf");
}

#[test]
fn hotlink_refuses_relative_source() {
    match hotlink(p("/d/original.conf"), p("config.conf"), true, true, false) {
        Err(HotlinkError::NewIsNotAbsolute { path }) => assert_eq!(path.to_text(), "config.conf"),
        _ => panic!("a relative source is refused"),
    }
}

#[test]
fn hotlink_checks_in_order() {
    match hotlink(p("/d/o"), p("rel"), false, false, true) {
        Err(HotlinkError::OriginalIsNotAFile { path }) => assert_eq!(path.to_text(), "/d/o"),
        _ => panic!("the original is checked first"),
    }
    match hotlink(p("/d/o"), p("rel"), true, false, true) {
        Err(HotlinkError::NewIsNotAFile { path }) => assert_eq!(path.to_text(), "rel"),
        _ => panic!("the source is checked second"),
    }
    match hotlink(p("/d/o"), p("/s"), true, true, true) {
        Err(HotlinkError::HotlinkedFileExists { path }) => assert_eq!(path.to_text(), "/d/o.hotlink"),
        _ => panic!("the backup is checked last"),
    }
}

#[test]
fn backup_names() {
    assert_eq!(backup_path(&p("/x/y.toml")).unwrap().to_text(), "/x/y.toml.hotlink");
    assert_eq!(backup_path(&p("rel")).unwrap().to_text(), "rel.hotlink");
    assert!(backup_path(&p("/")).is_none());
    // The backup without its extension is the file it backs up.
    let b = backup_path(&p("/x/y.toml")).unwrap();
    assert_eq!(b.strip_extension().to_text(), "/x/y.toml");
}

#[test]
fn registry_relinks_sources_on_close_write() {
    let mut reg = HotlinkRegistry::new();
    assert!(reg.insert(hotlink(p("/c/a.conf"), p("/s/a.conf"), true, true, false).unwrap()).is_none());
    assert!(reg.insert(hotlink(p("/c/b.conf"), p("/s/b.conf"), true, true, false).unwrap()).is_none());
    assert_eq!(reg.len(), 2);

    let events = vec![p("/s/b.conf"), p("/s/other"), p("/s/a.conf")];
    let t = reg.relink_targets(true, &events);
    let t: Vec<(String, String)> = t.iter().map(|(a, b)| (a.to_text(), b.to_text())).collect();
    assert_eq!(
        t,
        vec![
            ("/s/b.conf".to_string(), "/c/b.conf".to_string()),
            ("/s/a.conf".to_string(), "/c/a.conf".to_string())
        ]
    );
    assert!(reg.relink_targets(false, &events).is_empty());
}

#[test]
fn registry_keeps_one_file_per_source() {
    let mut reg = HotlinkRegistry::new();
    assert!(reg.insert(hotlink(p("/c/a.conf"), p("/s/a.conf"), true, true, false).unwrap()).is_none());
    let displaced = reg.insert(hotlink(p("/c/z.conf"), p("/s/a.conf"), true, true, false).unwrap());
    assert_eq!(displaced.unwrap().original_file_path().to_text(), "/c/a.conf");
    assert_eq!(reg.len(), 1);
    let files = reg.into_files();
    assert_eq!(files.len(), 1);
    assert_eq!(files[0].original_file_path().to_text(), "/c/z.conf");
}

#[test]
fn relink_targets_keep_their_text() {
    let mut reg = HotlinkRegistry::new();
    assert!(reg.insert(hotlink(p("/c//a.conf"), p("/s/./a.conf"), true, true, false).unwrap()).is_none());
    let t = reg.relink_targets(true, &vec![p("/s/a.conf")]);
    assert_eq!(t.len(), 1);
    assert_eq!(t[0].0.display(), "/s/./a.conf");
    assert_eq!(t[0].1.display(), "/c//a.conf");
}
