use hot_manager::path::FsPath;
use hot_manager::watch::{get_directories_to_watch, path_less, sort_paths, text_eq, text_less};

fn p(s: &str) -> FsPath {
    FsPath::parse(s)
}

fn texts(v: &[FsPath]) -> Vec<String> {
    v.iter().map(|q| q.to_text()).collect()
}

#[test]
fn watched_directories_cover_and_do_not_nest() {
    let files = vec![
        p("/h/.config/yazi/init.lua"),
        p("/h/.config/yazi/plugins/x.lua"),
        p("/h/.config/starship.toml"),
        p("/h/dotfiles/tv/config.toml"),
        p("/h/.config/yazi/keymap.toml"),
    ];
    let dirs = get_directories_to_watch(&files);
    assert_eq!(texts(&dirs), vec!["/h/.config", "/h/dotfiles/tv"]);
}

#[test]
fn watched_directories_are_ordered_and_unique() {
    let files = vec![p("/b/f"), p("/a/f"), p("/a/g"), p("/ab/f")];
    let dirs = get_directories_to_watch(&files);
    assert_eq!(texts(&dirs), vec!["/a", "/ab", "/b"]);
}

#[test]
fn no_files_no_directories() {
    assert!(get_directories_to_watch(&Vec::new()).is_empty());
}

#[test]
fn sibling_with_common_text_prefix_is_not_nested() {
    // `/a/b-c` starts with the text `/a/b` but not with its components.
    let files = vec![p("/a/b/f"), p("/a/b-c/f")];
    let dirs = get_directories_to_watch(&files);
    assert_eq!(texts(&dirs), vec!["/a/b", "/a/b-c"]);
}

#[test]
fn paths_sort_by_components() {
    let v = vec![p("/a/b-c"), p("/a/b/c"), p("/a"), p("rel"), p("/"), p("./x")];
    let s = sort_paths(&v);
    assert_eq!(texts(&s), vec!["/", "/a", "/a/b/c", "/a/b-c", "./x", "rel"]);
    assert!(path_less(&p("/a/b"), &p("/a/b/c")));
    assert!(!path_less(&p("/a/b"), &p("/a/b")));
    assert!(path_less(&p("/a/.."), &p("/a/b")));
}

#[test]
fn texts_compare_by_characters() {
    assert!(text_less("abc", "abd"));
    assert!(text_less("ab", "abc"));
    assert!(!text_less("abc", "ab"));
    assert!(!text_less("x", "x"));
    assert!(text_less("Z", "a"));
    assert!(text_eq("same", "same"));
    assert!(!text_eq("same", "Same"));
}

#[test]
fn watched_directories_ignore_order_and_repetition() {
    let a = vec![p("/x/y/f"), p("/x/g"), p("/z/h")];
    let b = vec![p("/z/h"), p("/x/g"), p("/x/y/f"), p("/x/g")];
    assert_eq!(texts(&get_directories_to_watch(&a)), texts(&get_directories_to_watch(&b)));
    assert_eq!(texts(&get_directories_to_watch(&a)), vec!["/x", "/z"]);
}
