use std::io::Write;

use hot_manager::assemble::{merge_mappings, orphaned_paths, tmp_location};
use hot_manager::collections::{PathMap, PathSet};
use hot_manager::detect::{select_config_paths, DetectError, EntryFacts};
use hot_manager::fix::{find_leftovers, leftover_pattern, restore_plan, restore_step};
use hot_manager::path::FsPath;

fn p(s: &str) -> FsPath {
    FsPath::parse(s)
}

#[test]
fn explicit_mappings_win() {
    let mut detected = PathMap::new();
    detected.insert(p("/c/a"), p("/d/a"));
    detected.insert(p("/c/b"), p("/d/b"));
    let mut explicit = PathMap::new();
    explicit.insert(p("/c/a"), p("/e/a"));
    explicit.insert(p("/c/x"), p("/e/x"));
    let m = merge_mappings(detected, &explicit);
    assert_eq!(m.len(), 3);
    assert_eq!(m.get(&p("/c/a")).unwrap().to_text(), "/e/a");
    assert_eq!(m.get(&p("/c/b")).unwrap().to_text(), "/d/b");
    assert_eq!(m.get(&p("/c/x")).unwrap().to_text(), "/e/x");
}

#[test]
fn orphans_are_the_unmapped_detected_paths() {
    let mut detected = PathSet::new();
    detected.insert(p("/c/a"));
    detected.insert(p("/c/b"));
    detected.insert(p("/c/sub/c"));
    let mut mapped = PathMap::new();
    mapped.insert(p("/c/b"), p("/d/b"));
    mapped.insert(p("/c/z"), p("/d/z"));
    let mut o: Vec<String> = orphaned_paths(&detected, &mapped).iter().map(|q| q.to_text()).collect();
    o.sort();
    assert_eq!(o, vec!["/c/a", "/c/sub/c"]);
}

#[test]
fn temporary_copy_location() {
    let t = tmp_location(&p("/h/.config/app/x.conf"), &p("/h/.config"), &p("/tmp/hot-manager.abc"));
    assert_eq!(t.to_text(), "/tmp/hot-manager.abc/app/x.conf");
}

fn entry(path: &str, is_symlink: bool, link_readable: bool, is_file: bool) -> EntryFacts {
    EntryFacts { path: p(path), is_symlink, link_readable, is_file }
}

#[test]
fn detection_selects_links_and_files() {
    let entries = vec![
        entry("/c", false, false, false),
        entry("/c/link", true, true, false),
        entry("/c/broken", true, false, false),
        entry("/c/file", false, false, true),
        entry("/c/excluded", true, true, false),
    ];
    let mut exclude = PathSet::new();
    exclude.insert(p("/c/excluded"));
    let links = select_config_paths(&p("/c"), true, &entries, &exclude, true, false).unwrap();
    assert_eq!(links.len(), 1);
    assert!(links.contains(&p("/c/link")));
    let files = select_config_paths(&p("/c"), true, &entries, &PathSet::new(), false, true).unwrap();
    assert_eq!(files.len(), 1);
    assert!(files.contains(&p("/c/file")));
    let both = select_config_paths(&p("/c"), true, &entries, &exclude, true, true).unwrap();
    assert_eq!(both.len(), 2);
    let neither = select_config_paths(&p("/c"), true, &entries, &exclude, false, false).unwrap();
    assert!(neither.is_empty());
}

#[test]
fn detection_needs_a_directory() {
    match select_config_paths(&p("/c/file"), false, &Vec::new(), &PathSet::new(), true, true) {
        Err(DetectError::NotADirectory { path }) => assert_eq!(path.to_text(), "/c/file"),
        Ok(_) => panic!("not a directory"),
    }
}

#[test]
fn leftover_backups_are_planned_back() {
    assert_eq!(leftover_pattern(&p("/h/.config")), "/h/.config/**/*.hotlink");
    let plan = restore_plan(&vec!["/h/.config/a/x.conf.hotlink".to_string(), "/h/b.hotlink".to_string()]);
    assert_eq!(plan.len(), 2);
    assert_eq!(plan[0].0.to_text(), "/h/.config/a/x.conf.hotlink");
    assert_eq!(plan[0].1.to_text(), "/h/.config/a/x.conf");
    assert_eq!(plan[1].1.to_text(), "/h/b");
}

#[test]
fn leftovers_found_on_disk() {
    let dir = tempfile::tempdir().unwrap();
    let mut f = tempfile::Builder::new()
        .prefix("app.conf.hotlink")
        .suffix("")
        .rand_bytes(0)
        .tempfile_in(dir.path())
        .unwrap();
    f.write_all(b"x").unwrap();
    let _other = tempfile::Builder::new().prefix("app.conf").suffix("").rand_bytes(0).tempfile_in(dir.path()).unwrap();
    let d = p(dir.path().to_str().unwrap());
    let plan = find_leftovers(&d).unwrap();
    assert_eq!(plan.len(), 1);
    assert_eq!(plan[0].0, d.join(&p("app.conf.hotlink")));
    assert_eq!(plan[0].1, d.join(&p("app.conf")));
}

#[test]
fn orphans_keep_their_text() {
    let mut detected = PathSet::new();
    detected.insert(p("/c//a"));
    detected.insert(p("/c/a"));
    detected.insert(p("/c/./b"));
    let mut mapped = PathMap::new();
    mapped.insert(p("/c/b"), p("/d/b"));
    let o = orphaned_paths(&detected, &mapped);
    assert_eq!(o.len(), 1);
    assert_eq!(o[0].display(), "/c//a");
}

#[test]
fn detection_shows_first_entry_text() {
    let entries = vec![entry("/c//x", true, true, false), entry("/c/x", true, true, false)];
    let s = select_config_paths(&p("/c"), true, &entries, &PathSet::new(), true, false).unwrap();
    let v = s.to_vec();
    assert_eq!(v.len(), 1);
    assert_eq!(v[0].display(), "/c//x");
}

#[test]
fn restore_removes_only_what_is_there() {
    let step = restore_step(p("/h/a.conf.hotlink"), p("/h/a.conf"), true);
    assert!(step.remove_original);
    assert_eq!(step.backup.display(), "/h/a.conf.hotlink");
    assert_eq!(step.original.display(), "/h/a.conf");
    let gone = restore_step(p("/h/b.hotlink"), p("/h/b"), false);
    assert!(!gone.remove_original);
}
