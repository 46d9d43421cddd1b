use hot_manager::collections::PathMap;
use hot_manager::output::{home_shorten, mapping_rows};
use hot_manager::path::FsPath;

fn p(s: &str) -> FsPath {
    FsPath::parse(s)
}

#[test]
fn home_is_shortened() {
    assert_eq!(home_shorten("/home/u", Some("/home/u")), "~");
    assert_eq!(home_shorten("/home/u/.config/x", Some("/home/u")), "~/.config/x");
    assert_eq!(home_shorten("/home/user2/x", Some("/home/u")), "/home/user2/x");
    assert_eq!(home_shorten("/etc/x", Some("/home/u")), "/etc/x");
    assert_eq!(home_shorten("/home/u/x", None), "/home/u/x");
}

#[test]
fn rows_sorted_by_text_with_width() {
    let mut m = PathMap::new();
    m.insert(p("/home/u/.config/zz"), p("/home/u/dot/zz"));
    m.insert(p("/home/u/.config/a/long"), p("/src/a"));
    m.insert(p("/etc/b"), p("/home/u/b"));
    let (rows, width) = mapping_rows(&m, Some("/home/u"));
    let shown: Vec<(String, String)> = rows.iter().map(|r| (r.shown_path.clone(), r.shown_source.clone())).collect();
    assert_eq!(
        shown,
        vec![
            ("/etc/b".to_string(), "~/b".to_string()),
            ("~/.config/a/long".to_string(), "/src/a".to_string()),
            ("~/.config/zz".to_string(), "~/dot/zz".to_string()),
        ]
    );
    assert_eq!(rows[0].path.to_text(), "/etc/b");
    assert_eq!(width, 16);
}

#[test]
fn no_rows_no_width() {
    let (rows, width) = mapping_rows(&PathMap::new(), None);
    assert!(rows.is_empty());
    assert_eq!(width, 0);
}

#[test]
fn rows_show_paths_as_written() {
    let mut m = PathMap::new();
    m.insert(p("/etc//b"), p("/src/./b"));
    m.insert(p("/etc/a"), p("/src/a"));
    let (rows, width) = mapping_rows(&m, None);
    let shown: Vec<(String, String)> = rows.iter().map(|r| (r.shown_path.clone(), r.shown_source.clone())).collect();
    assert_eq!(
        shown,
        vec![
            ("/etc//b".to_string(), "/src/./b".to_string()),
            ("/etc/a".to_string(), "/src/a".to_string()),
        ]
    );
    assert_eq!(width, 7);
}

#[test]
fn remapped_path_keeps_its_first_text() {
    let mut m = PathMap::new();
    m.insert(p("/etc//b"), p("/src/b"));
    m.insert(p("/etc/b"), p("/other/b"));
    assert_eq!(m.len(), 1);
    let (rows, _) = mapping_rows(&m, None);
    assert_eq!(rows[0].shown_path, "/etc//b");
    assert_eq!(rows[0].shown_source, "/other/b");
}
