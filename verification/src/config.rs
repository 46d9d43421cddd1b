//! The settings of a run: explicit mappings, excluded paths and switches.
use vstd::prelude::*;
use crate::collections::{PathMap, PathSet};
use crate::glob_search::{GlobHits, glob_accepts, glob_matches};
use crate::path::{Comps, FsPath, cur_comp, is_abs, join_comps, join_text, join_texts, parent_of, parse_text};

verus! {

/// The glob patterns excluded unless the defaults are switched off: Windows binaries, the
/// Heroic launcher, OBS Studio plugin settings, Steam singleton files and sops-nix secrets.
pub open spec fn default_ignore_globs() -> Seq<Seq<char>> {
    seq![
        "**/*.dll"@,
        "**/*.exe"@,
        "**/*.so*"@,
        "**/*.drv"@,
        "**/*.com"@,
        "**/*.cpl"@,
        "**/*.ocx"@,
        "heroic/**/*"@,
        "obs-studio/plugin_config/**/*"@,
        "steam/**/Singleton*"@,
        "sops-nix/**/*"@,
    ]
}

/// The default excluded glob patterns.
pub fn default_ignore_glob_list() -> (r: Vec<String>)
    ensures
        r@.map_values(|s: String| s@) == default_ignore_globs(),
{
    let mut r: Vec<String> = Vec::new();
    r.push(String::from_str("**/*.dll"));
    r.push(String::from_str("**/*.exe"));
    r.push(String::from_str("**/*.so*"));
    r.push(String::from_str("**/*.drv"));
    r.push(String::from_str("**/*.com"));
    r.push(String::from_str("**/*.cpl"));
    r.push(String::from_str("**/*.ocx"));
    r.push(String::from_str("heroic/**/*"));
    r.push(String::from_str("obs-studio/plugin_config/**/*"));
    r.push(String::from_str("steam/**/Singleton*"));
    r.push(String::from_str("sops-nix/**/*"));
    assert(r@.map_values(|s: String| s@) =~= default_ignore_globs());
    r
}

/// The glob patterns that exclude paths, relative to the configuration directory: the
/// given ones, then the defaults unless switched off, then `**/*` when automatic mappings
/// are switched off.
pub open spec fn exclude_globs(iglobs: Seq<Seq<char>>, no_default_exclude: bool, no_automappings: bool) -> Seq<Seq<char>> {
    iglobs + (if no_default_exclude {
        Seq::<Seq<char>>::empty()
    } else {
        default_ignore_globs()
    }) + (if no_automappings {
        seq!["**/*"@]
    } else {
        Seq::<Seq<char>>::empty()
    })
}

/// A glob pattern placed under the configuration directory: the directory's text and the
/// pattern as written, joined as texts.
pub open spec fn pattern_under(config_dir: Seq<char>, glob: Seq<char>) -> Seq<char> {
    join_text(config_dir, glob)
}

/// The full exclusion patterns handed to the glob search.
pub open spec fn exclude_patterns_spec(config_dir: Seq<char>, iglobs: Seq<Seq<char>>, no_default_exclude: bool, no_automappings: bool) -> Seq<Seq<char>> {
    exclude_globs(iglobs, no_default_exclude, no_automappings).map_values(|g: Seq<char>| pattern_under(config_dir, g))
}

/// The full exclusion patterns.
pub fn exclude_patterns(config_dir: &FsPath, iglobs: &Vec<String>, no_default_exclude: bool, no_automappings: bool) -> (r: Vec<String>)
    ensures
        r@.map_values(|s: String| s@) == exclude_patterns_spec(config_dir.display_text(), iglobs@.map_values(|s: String| s@), no_default_exclude, no_automappings),
{
    let mut globs: Vec<String> = Vec::new();
    let n = iglobs.len();
    for i in 0..n
        invariant
            n == iglobs@.len(),
            globs@.len() == i,
            forall|j: int| 0 <= j < i ==> (#[trigger] globs@[j])@ == iglobs@[j]@,
    {
        globs.push(iglobs[i].clone());
    }
    let ghost base = globs@.map_values(|s: String| s@);
    assert(base =~= iglobs@.map_values(|s: String| s@));
    if !no_default_exclude {
        let mut defaults = default_ignore_glob_list();
        globs.append(&mut defaults);
    }
    let ghost mid = globs@.map_values(|s: String| s@);
    proof {
        if no_default_exclude {
            assert(mid =~= base + Seq::<Seq<char>>::empty());
        } else {
            assert(mid =~= base + default_ignore_globs());
        }
    }
    if no_automappings {
        globs.push(String::from_str("**/*"));
    }
    let ghost all = exclude_globs(iglobs@.map_values(|s: String| s@), no_default_exclude, no_automappings);
    proof {
        assert(globs@.map_values(|s: String| s@) =~= all);
    }
    let mut r: Vec<String> = Vec::new();
    let m = globs.len();
    for i in 0..m
        invariant
            m == globs@.len(),
            globs@.map_values(|s: String| s@) == all,
            r@.len() == i,
            forall|j: int| 0 <= j < i ==> (#[trigger] r@[j])@ == pattern_under(config_dir.display_text(), all[j]),
    {
        r.push(join_texts(config_dir.display(), globs[i].as_str()));
        proof {
            assert(all[i as int] == globs@[i as int]@);
        }
    }
    assert(r@.map_values(|s: String| s@) =~= exclude_patterns_spec(config_dir.display_text(), iglobs@.map_values(|s: String| s@), no_default_exclude, no_automappings));
    r
}

/// The paths named by the texts of `found`.
pub open spec fn found_paths(found: Seq<Seq<Seq<char>>>) -> Set<Comps> {
    Set::new(|p: Comps| exists|i: int, j: int| 0 <= i < found.len() && 0 <= j < found[i].len() && parse_text(#[trigger] found[i][j]) == p)
}

/// The texts found by each of a list of glob searches.
pub open spec fn hits_found(searches: Seq<GlobHits>) -> Seq<Seq<Seq<char>>> {
    searches.map_values(|h: GlobHits| h.found())
}

/// Every path that any one of the searches found is among the paths they found together,
/// whatever the other searches found: no search's finds are lost to another's.
pub proof fn lemma_each_search_counts(searches: Seq<GlobHits>, i: int, j: int)
    requires
        0 <= i < searches.len(),
        0 <= j < searches[i].found().len(),
    ensures
        found_paths(hits_found(searches)).contains(parse_text(searches[i].found()[j])),
{
    let g = hits_found(searches);
    assert(g[i] == searches[i].found());
    assert(0 <= i < g.len() && 0 <= j < g[i].len() && parse_text(g[i][j]) == parse_text(searches[i].found()[j]));
}

/// The texts of a list of lists of texts.
pub open spec fn texts2(v: Seq<Vec<String>>) -> Seq<Seq<Seq<char>>> {
    v.map_values(|w: Vec<String>| w@.map_values(|s: String| s@))
}

/// Errors of the settings.
#[derive(Debug)]
pub enum ConfigError {
    /// The glob search refused an exclusion pattern.
    InvalidPattern { pattern: String },
}

/// The settings of a run.
#[derive(Debug)]
pub struct Config {
    /// Paths that are never repointed, found by the exclusion patterns.
    pub exclude_set: PathSet,
    /// Explicit mappings from a configuration path to its source.
    pub mappings: PathMap,
    /// Whether orphaned configuration files get no temporary copy.
    pub no_tmp_mappings: bool,
    /// What the glob search found for each exclusion pattern, in turn.
    pub searches: Vec<GlobHits>,
}

/// The settings as the configuration file writes them.
#[derive(Debug)]
pub struct RawConfig {
    /// Glob patterns to exclude, relative to the configuration directory.
    pub exclude: Vec<String>,
    /// Mappings from a configuration path (relative to the configuration directory, or
    /// absolute) to its source (relative to the configuration file's directory, or absolute).
    pub mappings: PathMap,
    /// Whether the default exclusion patterns are left out.
    pub no_default_exclude: bool,
    /// Whether automatic detection is switched off.
    pub no_automappings: bool,
    /// Whether orphaned configuration files get no temporary copy.
    pub no_tmp_mappings: bool,
}

/// A path resolved against `base`: unchanged when absolute, joined to `base` otherwise.
pub open spec fn resolve(base: Comps, p: Comps) -> Comps {
    if is_abs(p) {
        p
    } else {
        join_comps(base, p)
    }
}

/// `p` resolved against `base`.
pub fn resolve_path(base: &FsPath, p: FsPath) -> (r: FsPath)
    ensures
        r@ == resolve(base@, p@),
        r.display_text() == if is_abs(p@) {
            p.display_text()
        } else {
            join_text(base.display_text(), p.display_text())
        },
{
    if p.is_absolute() {
        p
    } else {
        base.join(&p)
    }
}

/// `r` is `mappings` with keys resolved against `key_base` and values against `value_base`:
/// its keys are the resolved keys; a resolved key maps to the resolved value of one of the
/// keys that resolve to it, and to that of its own key when no other key resolves to it.
pub open spec fn absolutized(r: Map<Comps, Comps>, mappings: Map<Comps, Comps>, value_base: Comps, key_base: Comps) -> bool {
    &&& forall|k: Comps| #[trigger] r.contains_key(k) <==> exists|k0: Comps| mappings.contains_key(k0) && resolve(key_base, k0) == k
    &&& forall|k0: Comps| #[trigger] mappings.contains_key(k0) ==> exists|k1: Comps| {
        &&& mappings.contains_key(k1)
        &&& resolve(key_base, k1) == resolve(key_base, k0)
        &&& r[resolve(key_base, k0)] == resolve(value_base, mappings[k1])
    }
    &&& forall|k0: Comps| #[trigger] mappings.contains_key(k0) && (forall|k1: Comps| mappings.contains_key(k1) && resolve(key_base, k1) == resolve(key_base, k0) ==> k1 == k0)
        ==> r[resolve(key_base, k0)] == resolve(value_base, mappings[k0])
}

/// Resolving against an absolute directory gives an absolute path.
proof fn lemma_resolve_abs(base: Comps, p: Comps)
    requires
        is_abs(base),
    ensures
        is_abs(resolve(base, p)),
{
    if !is_abs(p) {
        let j = join_comps(base, p);
        if p.len() > 0 && p[0] == cur_comp() {
            assert(j[0] == (base + p.drop_first())[0]);
        } else {
            assert(j[0] == (base + p)[0]);
        }
    }
}

/// With absolute directories to resolve against, every mapped path and every source of
/// the resolved mappings is absolute.
pub proof fn lemma_absolutized_abs(r: Map<Comps, Comps>, mappings: Map<Comps, Comps>, value_base: Comps, key_base: Comps)
    requires
        absolutized(r, mappings, value_base, key_base),
        is_abs(value_base),
        is_abs(key_base),
    ensures
        forall|k: Comps| #[trigger] r.contains_key(k) ==> is_abs(k) && is_abs(r[k]),
{
    assert forall|k: Comps| #[trigger] r.contains_key(k) implies is_abs(k) && is_abs(r[k]) by {
        let k0 = choose|k0: Comps| mappings.contains_key(k0) && resolve(key_base, k0) == k;
        lemma_resolve_abs(key_base, k0);
        let k1 = choose|k1: Comps| {
            &&& mappings.contains_key(k1)
            &&& resolve(key_base, k1) == resolve(key_base, k0)
            &&& r[resolve(key_base, k0)] == resolve(value_base, mappings[k1])
        };
        lemma_resolve_abs(value_base, mappings[k1]);
    }
}

/// The mappings with relative keys resolved against the configuration directory and
/// relative values against the directory of the hot-manager configuration file. Keys
/// that resolve to the same path keep the resolved value of one of them; which one is
/// left open, as the order of a map's keys is.
pub fn to_absolute_paths(mappings: PathMap, hotmanager_config_path: &FsPath, config_dir: &FsPath) -> (r: PathMap)
    ensures
        absolutized(r@, mappings@, hotmanager_config_path@, config_dir@),
{
    let (ks, vs) = mappings.to_entries();
    let mut r = PathMap::new();
    let n = ks.len();
    for i in 0..n
        invariant
            n == ks@.len(),
            ks@.len() == vs@.len(),
            crate::collections::vec_distinct(ks@),
            crate::collections::assoc_map(ks@, vs@) == mappings@,
            forall|j: int| 0 <= j < ks@.len() ==> mappings@.contains_key((#[trigger] ks@[j])@) && mappings@[ks@[j]@] == vs@[j]@,
            forall|k: Comps| #[trigger] r@.contains_key(k) <==> exists|j: int| 0 <= j < i && resolve(config_dir@, (#[trigger] ks@[j])@) == k,
            forall|k: Comps| #[trigger] r@.contains_key(k) ==> exists|j: int| 0 <= j < i && resolve(config_dir@, (#[trigger] ks@[j])@) == k
                && r@[k] == resolve(hotmanager_config_path@, vs@[j]@)
                && forall|j2: int| j < j2 < i ==> resolve(config_dir@, (#[trigger] ks@[j2])@) != k,
    {
        let key = resolve_path(config_dir, ks[i].duplicate());
        let value = resolve_path(hotmanager_config_path, vs[i].duplicate());
        let ghost old_r = r@;
        r.insert(key, value);
        proof {
            let kk = resolve(config_dir@, ks@[i as int]@);
            assert forall|k: Comps| #[trigger] r@.contains_key(k) <==> exists|j: int| 0 <= j < i + 1 && resolve(config_dir@, (#[trigger] ks@[j])@) == k by {
                if k != kk && old_r.contains_key(k) {
                    let j = choose|j: int| 0 <= j < i && resolve(config_dir@, (#[trigger] ks@[j])@) == k;
                }
                if exists|j: int| 0 <= j < i + 1 && resolve(config_dir@, (#[trigger] ks@[j])@) == k {
                    let j = choose|j: int| 0 <= j < i + 1 && resolve(config_dir@, (#[trigger] ks@[j])@) == k;
                    if j < i {
                        assert(old_r.contains_key(k));
                    }
                }
            }
            assert forall|k: Comps| #[trigger] r@.contains_key(k) implies exists|j: int| 0 <= j < i + 1 && resolve(config_dir@, (#[trigger] ks@[j])@) == k
                && r@[k] == resolve(hotmanager_config_path@, vs@[j]@)
                && forall|j2: int| j < j2 < i + 1 ==> resolve(config_dir@, (#[trigger] ks@[j2])@) != k by {
                if k == kk {
                    assert(resolve(config_dir@, ks@[i as int]@) == k);
                } else {
                    let j = choose|j: int| 0 <= j < i && resolve(config_dir@, (#[trigger] ks@[j])@) == k
                        && old_r[k] == resolve(hotmanager_config_path@, vs@[j]@)
                        && forall|j2: int| j < j2 < i ==> resolve(config_dir@, (#[trigger] ks@[j2])@) != k;
                    assert forall|j2: int| j < j2 < i + 1 implies resolve(config_dir@, (#[trigger] ks@[j2])@) != k by {
                        if j2 == i {
                        }
                    }
                }
            }
        }
    }
    proof {
        assert forall|k: Comps| #[trigger] r@.contains_key(k) <==> exists|k0: Comps| mappings@.contains_key(k0) && resolve(config_dir@, k0) == k by {
            if r@.contains_key(k) {
                let j = choose|j: int| 0 <= j < n && resolve(config_dir@, (#[trigger] ks@[j])@) == k;
                assert(mappings@.contains_key(ks@[j]@));
            }
            if exists|k0: Comps| mappings@.contains_key(k0) && resolve(config_dir@, k0) == k {
                let k0 = choose|k0: Comps| mappings@.contains_key(k0) && resolve(config_dir@, k0) == k;
                let j = crate::collections::key_index(ks@, k0);
                assert(crate::collections::vec_has(ks@, k0));
                assert(resolve(config_dir@, ks@[j]@) == k);
            }
        }
        assert forall|k0: Comps| #[trigger] mappings@.contains_key(k0) implies exists|k1: Comps| {
            &&& mappings@.contains_key(k1)
            &&& resolve(config_dir@, k1) == resolve(config_dir@, k0)
            &&& r@[resolve(config_dir@, k0)] == resolve(hotmanager_config_path@, mappings@[k1])
        } by {
            let k = resolve(config_dir@, k0);
            let j0 = crate::collections::key_index(ks@, k0);
            assert(crate::collections::vec_has(ks@, k0));
            assert(resolve(config_dir@, ks@[j0]@) == k);
            assert(r@.contains_key(k));
            let j = choose|j: int| 0 <= j < n && resolve(config_dir@, (#[trigger] ks@[j])@) == k
                && r@[k] == resolve(hotmanager_config_path@, vs@[j]@)
                && forall|j2: int| j < j2 < n ==> resolve(config_dir@, (#[trigger] ks@[j2])@) != k;
            let k1 = ks@[j]@;
            assert(mappings@.contains_key(k1) && mappings@[k1] == vs@[j]@);
        }
        assert forall|k0: Comps| #[trigger] mappings@.contains_key(k0) && (forall|k1: Comps| mappings@.contains_key(k1) && resolve(config_dir@, k1) == resolve(config_dir@, k0) ==> k1 == k0)
            implies r@[resolve(config_dir@, k0)] == resolve(hotmanager_config_path@, mappings@[k0]) by {
            let k = resolve(config_dir@, k0);
            let j0 = crate::collections::key_index(ks@, k0);
            assert(crate::collections::vec_has(ks@, k0));
            assert(resolve(config_dir@, ks@[j0]@) == k);
            assert(r@.contains_key(k));
            let j = choose|j: int| 0 <= j < n && resolve(config_dir@, (#[trigger] ks@[j])@) == k
                && r@[k] == resolve(hotmanager_config_path@, vs@[j]@)
                && forall|j2: int| j < j2 < n ==> resolve(config_dir@, (#[trigger] ks@[j2])@) != k;
            assert(mappings@.contains_key(ks@[j]@));
            assert(ks@[j]@ == k0);
        }
    }
    r
}

/// The first pattern that the glob search refuses, if any.
pub open spec fn first_refused(pats: Seq<Seq<char>>, i: int) -> bool {
    &&& 0 <= i < pats.len()
    &&& !glob_accepts(pats[i])
    &&& forall|j: int| 0 <= j < i ==> glob_accepts(#[trigger] pats[j])
}

/// Every pattern is accepted by the glob search.
pub open spec fn all_accepted(pats: Seq<Seq<char>>) -> bool {
    forall|i: int| 0 <= i < pats.len() ==> glob_accepts(#[trigger] pats[i])
}

impl Config {
    /// The settings with the paths that the exclusion searches found.
    pub fn from_matches(mappings: PathMap, searches: Vec<GlobHits>, no_tmp_mappings: bool) -> (r: Config)
        ensures
            r.exclude_set@ == found_paths(hits_found(searches@)),
            r.searches@ == searches@,
            r.mappings@ == mappings@,
            r.no_tmp_mappings == no_tmp_mappings,
    {
        let ghost g = hits_found(searches@);
        let mut exclude_set = PathSet::new();
        let n = searches.len();
        for i in 0..n
            invariant
                n == searches@.len(),
                g == hits_found(searches@),
                forall|p: Comps| #[trigger] exclude_set@.contains(p) <==> exists|a: int, b: int| 0 <= a < i && 0 <= b < g[a].len() && parse_text(#[trigger] g[a][b]) == p,
        {
            let paths = searches[i].paths();
            let m = paths.len();
            proof {
                assert(g[i as int] == searches@[i as int].found());
            }
            for j in 0..m
                invariant
                    n == searches@.len(),
                    g == hits_found(searches@),
                    i < n,
                    paths@.map_values(|s: String| s@) == g[i as int],
                    m == g[i as int].len(),
                    forall|p: Comps| #[trigger] exclude_set@.contains(p) <==> (exists|a: int, b: int| 0 <= a < i && 0 <= b < g[a].len() && parse_text(#[trigger] g[a][b]) == p)
                        || (exists|b: int| 0 <= b < j && parse_text(#[trigger] g[i as int][b]) == p),
            {
                let ghost before = exclude_set@;
                exclude_set.insert(FsPath::parse(paths[j].as_str()));
                proof {
                    assert(paths@[j as int]@ == g[i as int][j as int]);
                    assert forall|p: Comps| #[trigger] exclude_set@.contains(p) <==> (exists|a: int, b: int| 0 <= a < i && 0 <= b < g[a].len() && parse_text(#[trigger] g[a][b]) == p)
                        || (exists|b: int| 0 <= b < j + 1 && parse_text(#[trigger] g[i as int][b]) == p) by {
                        if exists|b: int| 0 <= b < j + 1 && parse_text(#[trigger] g[i as int][b]) == p {
                            let b = choose|b: int| 0 <= b < j + 1 && parse_text(#[trigger] g[i as int][b]) == p;
                            if b < j {
                                assert(before.contains(p));
                            }
                        }
                    }
                }
            }
            proof {
                assert forall|p: Comps| #[trigger] exclude_set@.contains(p) <==> exists|a: int, b: int| 0 <= a < i + 1 && 0 <= b < g[a].len() && parse_text(#[trigger] g[a][b]) == p by {
                    if exists|b: int| 0 <= b < m && parse_text(#[trigger] g[i as int][b]) == p {
                        let b = choose|b: int| 0 <= b < m && parse_text(#[trigger] g[i as int][b]) == p;
                        assert(0 <= i < i + 1 && 0 <= b < g[i as int].len() && parse_text(g[i as int][b]) == p);
                    }
                    if exists|a: int, b: int| 0 <= a < i + 1 && 0 <= b < g[a].len() && parse_text(#[trigger] g[a][b]) == p {
                        let (a, b) = choose|a: int, b: int| 0 <= a < i + 1 && 0 <= b < g[a].len() && parse_text(#[trigger] g[a][b]) == p;
                        if a == i {
                            assert(parse_text(g[i as int][b]) == p);
                        } else {
                            assert(0 <= a < i && 0 <= b < g[a].len() && parse_text(g[a][b]) == p);
                        }
                    }
                }
            }
        }
        proof {
            assert(exclude_set@ =~= found_paths(g)) by {
                assert forall|p: Comps| exclude_set@.contains(p) == found_paths(g).contains(p) by {
                    if exclude_set@.contains(p) {
                        let (a, b) = choose|a: int, b: int| 0 <= a < n && 0 <= b < g[a].len() && parse_text(#[trigger] g[a][b]) == p;
                    }
                }
            }
        }
        Config { exclude_set, mappings, no_tmp_mappings, searches }
    }

    /// The settings of a run. Every exclusion pattern is handed to the glob search in turn;
    /// the first one it refuses is the error.
    pub fn new(
        config_dir: &FsPath,
        mappings: PathMap,
        iglobs: Vec<String>,
        no_default_exclude: bool,
        no_automappings: bool,
        no_tmp_mappings: bool,
    ) -> (r: Result<Config, ConfigError>)
        ensures
            ({
                let pats = exclude_patterns_spec(config_dir.display_text(), iglobs@.map_values(|s: String| s@), no_default_exclude, no_automappings);
                &&& r is Ok <==> all_accepted(pats)
                &&& match r {
                    Ok(c) => {
                        &&& c.mappings@ == mappings@
                        &&& c.no_tmp_mappings == no_tmp_mappings
                        &&& exists|found: Seq<Seq<Seq<char>>>| found.len() == pats.len() && c.exclude_set@ == found_paths(found)
                        &&& c.searches@.len() == pats.len()
                        &&& forall|i: int| 0 <= i < pats.len() ==> (#[trigger] c.searches@[i]).pattern() == pats[i]
                        &&& c.exclude_set@ == found_paths(hits_found(c.searches@))
                    },
                    Err(ConfigError::InvalidPattern { pattern }) => exists|i: int| first_refused(pats, i) && pats[i] == pattern@,
                }
            }),
    {
        let pats = exclude_patterns(config_dir, &iglobs, no_default_exclude, no_automappings);
        let ghost pv = pats@.map_values(|s: String| s@);
        let mut searches: Vec<GlobHits> = Vec::new();
        let n = pats.len();
        for i in 0..n
            invariant
                n == pats@.len(),
                pv == pats@.map_values(|s: String| s@),
                pv == exclude_patterns_spec(config_dir.display_text(), iglobs@.map_values(|s: String| s@), no_default_exclude, no_automappings),
                searches@.len() == i,
                forall|j: int| 0 <= j < i ==> (#[trigger] searches@[j]).pattern() == pv[j],
                forall|j: int| 0 <= j < i ==> glob_accepts(#[trigger] pv[j]),
        {
            match glob_matches(pats[i].as_str()) {
                Some(hits) => {
                    let ghost before = searches@;
                    searches.push(hits);
                    proof {
                        assert forall|j: int| 0 <= j < i + 1 implies (#[trigger] searches@[j]).pattern() == pv[j] by {
                            if j < i {
                                assert(searches@[j] == before[j]);
                            } else {
                                assert(pats@[i as int]@ == pv[i as int]);
                            }
                        }
                    }
                },
                None => {
                    let pattern = pats[i].clone();
                    proof {
                        assert(first_refused(pv, i as int));
                        assert(!glob_accepts(pv[i as int]));
                        assert(!all_accepted(pv));
                        assert(pv[i as int] == pattern@);
                    }
                    return Err(ConfigError::InvalidPattern { pattern });
                },
            }
        }
        let ghost sv = searches@;
        let c = Config::from_matches(mappings, searches, no_tmp_mappings);
        proof {
            assert(hits_found(sv).len() == pv.len());
        }
        Ok(c)
    }

    /// The settings that a configuration file at `path` holds: relative mapped paths are
    /// resolved against the configuration directory, relative sources against the directory
    /// of the file.
    pub fn from_raw(path: &FsPath, config_dir: &FsPath, raw: RawConfig) -> (r: Result<Config, ConfigError>)
        requires
            parent_of(path@) is Some,
        ensures
            ({
                let pats = exclude_patterns_spec(config_dir.display_text(), raw.exclude@.map_values(|s: String| s@), raw.no_default_exclude, raw.no_automappings);
                &&& r is Ok <==> all_accepted(pats)
                &&& match r {
                    Ok(c) => {
                        &&& absolutized(c.mappings@, raw.mappings@, parent_of(path@)->0, config_dir@)
                        &&& c.no_tmp_mappings == raw.no_tmp_mappings
                        &&& exists|found: Seq<Seq<Seq<char>>>| found.len() == pats.len() && c.exclude_set@ == found_paths(found)
                        &&& c.searches@.len() == pats.len()
                        &&& forall|i: int| 0 <= i < pats.len() ==> (#[trigger] c.searches@[i]).pattern() == pats[i]
                        &&& c.exclude_set@ == found_paths(hits_found(c.searches@))
                    },
                    Err(ConfigError::InvalidPattern { pattern }) => exists|i: int| first_refused(pats, i) && pats[i] == pattern@,
                }
            }),
    {
        let dir = match path.parent() {
            Some(d) => d,
            None => {
                assert(false);
                return Config::new(config_dir, PathMap::new(), raw.exclude, raw.no_default_exclude, raw.no_automappings, raw.no_tmp_mappings);
            },
        };
        let mappings = to_absolute_paths(raw.mappings, &dir, config_dir);
        Config::new(config_dir, mappings, raw.exclude, raw.no_default_exclude, raw.no_automappings, raw.no_tmp_mappings)
    }
}

} // verus!
