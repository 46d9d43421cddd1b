use hot_manager::collections::PathSet;
use hot_manager::matching::{get_path_suffix, match_config_to_dotfiles, MatchError};
use hot_manager::path::FsPath;

fn p(s: &str) -> FsPath {
    FsPath::parse(s)
}

fn set(items: &[&str]) -> PathSet {
    let mut s = PathSet::new();
    for i in items {
        s.insert(p(i));
    }
    s
}

#[test]
fn path_suffix_skips_components() {
    assert_eq!(get_path_suffix(&p("a/b/c"), 0).unwrap().to_text(), "a/b/c");
    assert_eq!(get_path_suffix(&p("a/b/c"), 1).unwrap().to_text(), "b/c");
    assert_eq!(get_path_suffix(&p("a/b/c"), 2).unwrap().to_text(), "c");
    assert!(get_path_suffix(&p("a/b/c"), 3).is_none());
    assert!(get_path_suffix(&p("a/b/c"), 10).is_none());
}

#[test]
fn matches_dotfiles_tree_of_the_readme() {
    let config = set(&[
        "/home/u/.config/yazi/init.lua",
        "/home/u/.config/television/config.toml",
        "/home/u/.config/starship.toml",
        "/home/u/.config/atuin/config.toml",
    ]);
    let dotfiles = set(&[
        "/home/u/dotfiles/config/yazi/init.lua",
        "/home/u/dotfiles/config/television/config.toml",
        "/home/u/dotfiles/config/starship.toml",
    ]);
    let m = match_config_to_dotfiles(&config, dotfiles, &p("/home/u/dotfiles/config")).unwrap();
    assert_eq!(m.len(), 3);
    assert_eq!(
        m.get(&p("/home/u/.config/yazi/init.lua")).unwrap().to_text(),
        "/home/u/dotfiles/config/yazi/init.lua"
    );
    assert_eq!(
        m.get(&p("/home/u/.config/television/config.toml")).unwrap().to_text(),
        "/home/u/dotfiles/config/television/config.toml"
    );
    assert_eq!(
        m.get(&p("/home/u/.config/starship.toml")).unwrap().to_text(),
        "/home/u/dotfiles/config/starship.toml"
    );
    assert!(!m.contains_key(&p("/home/u/.config/atuin/config.toml")));
}

#[test]
fn matches_from_the_dotfiles_root_by_common_suffix() {
    let config = set(&["/home/u/.config/yazi/init.lua", "/home/u/.config/starship.toml"]);
    let dotfiles = set(&[
        "/home/u/dotfiles/config/yazi/init.lua",
        "/home/u/dotfiles/config/starship.toml",
        "/home/u/dotfiles/home-manager/atuin.nix",
    ]);
    let m = match_config_to_dotfiles(&config, dotfiles, &p("/home/u/dotfiles")).unwrap();
    assert_eq!(m.len(), 2);
    assert_eq!(
        m.get(&p("/home/u/.config/yazi/init.lua")).unwrap().to_text(),
        "/home/u/dotfiles/config/yazi/init.lua"
    );
    assert_eq!(
        m.get(&p("/home/u/.config/starship.toml")).unwrap().to_text(),
        "/home/u/dotfiles/config/starship.toml"
    );
}

#[test]
fn ambiguous_match_is_dropped() {
    // Both dotfiles reduce to `config.toml`, which the one configuration path ends with.
    let config = set(&["/c/app/config.toml"]);
    let dotfiles = set(&["/d/x/config.toml", "/d/y/config.toml"]);
    let m = match_config_to_dotfiles(&config, dotfiles, &p("/d")).unwrap();
    assert!(m.is_empty());
}

#[test]
fn dotfile_matching_two_configs_is_dropped() {
    let config = set(&["/c/a/init.lua", "/c/b/init.lua"]);
    let dotfiles = set(&["/d/init.lua"]);
    let m = match_config_to_dotfiles(&config, dotfiles, &p("/d")).unwrap();
    assert!(m.is_empty());
}

#[test]
fn longer_key_wins_before_shortening() {
    // `yazi/init.lua` matches at the first stage, so the plain `init.lua` of the other
    // configuration path is never tried for that dotfile.
    let config = set(&["/c/yazi/init.lua", "/c/nvim/init.lua"]);
    let dotfiles = set(&["/d/yazi/init.lua"]);
    let m = match_config_to_dotfiles(&config, dotfiles, &p("/d")).unwrap();
    assert_eq!(m.len(), 1);
    assert_eq!(m.get(&p("/c/yazi/init.lua")).unwrap().to_text(), "/d/yazi/init.lua");
}

#[test]
fn longest_common_suffix_is_tried_first() {
    // The key `nvim/lua/plugins/init.lua` is shortened one component at a time, so
    // `plugins/init.lua` is tried before `init.lua`, and only one configuration path ends
    // with it.
    let config = set(&["/c/plugins/init.lua", "/c/other/init.lua"]);
    let dotfiles = set(&["/d/nvim/lua/plugins/init.lua"]);
    let m = match_config_to_dotfiles(&config, dotfiles, &p("/d")).unwrap();
    assert_eq!(m.len(), 1);
    assert_eq!(m.get(&p("/c/plugins/init.lua")).unwrap().to_text(), "/d/nvim/lua/plugins/init.lua");
}

#[test]
fn each_suffix_length_is_tried() {
    // `a/b/c/d` is tried whole, then `b/c/d`, then `c/d`: the first configuration path
    // ends with `c/d`, the second only with `d`.
    let config = set(&["/c/x/c/d", "/c/y/d"]);
    let dotfiles = set(&["/d/a/b/c/d"]);
    let m = match_config_to_dotfiles(&config, dotfiles, &p("/d")).unwrap();
    assert_eq!(m.len(), 1);
    assert_eq!(m.get(&p("/c/x/c/d")).unwrap().to_text(), "/d/a/b/c/d");
}

#[test]
fn relative_path_is_refused() {
    let config = set(&["relative/conf"]);
    let dotfiles = set(&["/d/conf"]);
    match match_config_to_dotfiles(&config, dotfiles, &p("/d")) {
        Err(MatchError::NotAbsolute { path }) => assert_eq!(path.to_text(), "relative/conf"),
        Ok(_) => panic!("relative paths are refused"),
    }
    let config = set(&["/c/conf"]);
    let dotfiles = set(&["d/conf"]);
    match match_config_to_dotfiles(&config, dotfiles, &p("d")) {
        Err(MatchError::NotAbsolute { path }) => assert_eq!(path.to_text(), "d/conf"),
        Ok(_) => panic!("relative paths are refused"),
    }
}

#[test]
fn empty_inputs_match_nothing() {
    let m = match_config_to_dotfiles(&PathSet::new(), PathSet::new(), &p("/d")).unwrap();
    assert!(m.is_empty());
    let m = match_config_to_dotfiles(&set(&["/c/a"]), PathSet::new(), &p("/d")).unwrap();
    assert!(m.is_empty());
}
