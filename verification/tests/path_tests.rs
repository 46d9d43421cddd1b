use hot_manager::path::{is_single_char, join_texts, FsPath};

fn p(s: &str) -> FsPath {
    FsPath::parse(s)
}

#[test]
fn parse_absolute_components() {
    let a = p("/home/user/.config");
    assert_eq!(a.len(), 4);
    assert_eq!(a.component(0), "/");
    assert_eq!(a.component(1), "home");
    assert_eq!(a.component(3), ".config");
    assert!(a.is_absolute());
    assert_eq!(a.to_text(), "/home/user/.config");
}

#[test]
fn parse_normalises_separators_and_dots() {
    assert_eq!(p("a//b/./c/").to_text(), "a/b/c");
    assert_eq!(p("./a/b").to_text(), "./a/b");
    assert_eq!(p("a/../b").to_text(), "a/../b");
    assert_eq!(p("//x").to_text(), "/x");
    assert_eq!(p("").len(), 0);
    assert_eq!(p("/").to_text(), "/");
    assert!(p("a//b").same_as(&p("a/b")));
    assert!(!p("a/b").same_as(&p("/a/b")));
}

#[test]
fn text_round_trip() {
    for s in ["/", "/a", "a/b/c", "./x/y", ".", "/tmp/hot-manager.x1/y.toml"] {
        let q = p(s);
        assert_eq!(p(&q.to_text()), q);
    }
}

#[test]
fn join_paths() {
    assert_eq!(p("/a/b").join(&p("c/d")).to_text(), "/a/b/c/d");
    assert_eq!(p("/a/b").join(&p("/c")).to_text(), "/c");
    assert_eq!(p("/a").join(&p("./c")).to_text(), "/a/c");
    assert_eq!(FsPath::empty().join(&p("c")).to_text(), "c");
}

#[test]
fn prefixes_and_suffixes() {
    let a = p("/home/user/.config/yazi/init.lua");
    assert!(a.starts_with(&p("/home/user")));
    assert!(!a.starts_with(&p("/home/us")));
    assert!(a.ends_with(&p("yazi/init.lua")));
    assert!(!a.ends_with(&p("azi/init.lua")));
    assert!(a.ends_with(&FsPath::empty()));
    assert_eq!(a.strip_prefix(&p("/home/user")).unwrap().to_text(), ".config/yazi/init.lua");
    assert!(a.strip_prefix(&p("/etc")).is_none());
    assert_eq!(a.skip_components(3).unwrap().to_text(), ".config/yazi/init.lua");
    assert!(a.skip_components(6).is_none());
}

#[test]
fn parents_and_names() {
    let a = p("/etc/app/conf.toml");
    assert_eq!(a.parent().unwrap().to_text(), "/etc/app");
    assert!(p("/").parent().is_none());
    assert!(FsPath::empty().parent().is_none());
    assert_eq!(p("/x").parent().unwrap().to_text(), "/");
    assert_eq!(a.file_name().unwrap(), "conf.toml");
    assert!(p("/").file_name().is_none());
    assert!(p("a/..").file_name().is_none());
    assert_eq!(a.with_file_name("other").to_text(), "/etc/app/other");
}

#[test]
fn strip_extension_of_paths() {
    assert_eq!(p("/d/original.conf.hotlink").strip_extension().to_text(), "/d/original.conf");
    assert_eq!(p("/d/name").strip_extension().to_text(), "/d/name");
    assert_eq!(p("/d/.hidden").strip_extension().to_text(), "/d/.hidden");
    assert_eq!(p("/d/a.b").strip_extension().to_text(), "/d/a");
}

#[test]
fn single_char_texts() {
    assert!(is_single_char("/", '/'));
    assert!(!is_single_char("//", '/'));
    assert!(!is_single_char("", '/'));
}

#[test]
fn texts_joined_as_written() {
    assert_eq!(join_texts("/a", "b/"), "/a/b/");
    assert_eq!(join_texts("/a/", "b"), "/a/b");
    assert_eq!(join_texts("/a", "/b"), "/b");
    assert_eq!(join_texts("", "b"), "b");
    assert_eq!(join_texts("/a", ""), "/a/");
}

#[test]
fn paths_are_shown_as_written() {
    assert_eq!(p("/a//b/").display(), "/a//b/");
    assert_eq!(p("/a//b/").to_text(), "/a/b");
    assert_eq!(p("/a/").join(&p("./c")).display(), "/a/./c");
    assert_eq!(p("/a//b").parent().unwrap().display(), "/a");
}
