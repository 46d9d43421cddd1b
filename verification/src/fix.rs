//! Restoring backups left over by a run that did not end cleanly.
use vstd::prelude::*;
use crate::config::ConfigError;
use crate::glob_search::{glob_accepts, glob_matches};
use crate::path::{FsPath, join_text, join_texts, parse_text, strip_extension_comps};

verus! {

/// The pattern of leftover backups under the configuration directory.
pub open spec fn leftover_pattern_spec(config_dir: Seq<char>) -> Seq<char> {
    join_text(config_dir, "**/*.hotlink"@)
}

/// The pattern of leftover backups under the configuration directory.
pub fn leftover_pattern(config_dir: &FsPath) -> (r: String)
    ensures
        r@ == leftover_pattern_spec(config_dir.display_text()),
{
    join_texts(config_dir.display(), "**/*.hotlink")
}

/// For each backup, the backup and the path it is moved back to: the backup without its
/// extension.
pub fn restore_plan(backups: &Vec<String>) -> (r: Vec<(FsPath, FsPath)>)
    ensures
        r@.len() == backups@.len(),
        forall|i: int| 0 <= i < r@.len() ==> (#[trigger] r@[i]).0@ == parse_text(backups@[i]@)
            && r@[i].1@ == strip_extension_comps(parse_text(backups@[i]@)),
{
    let mut r: Vec<(FsPath, FsPath)> = Vec::new();
    let n = backups.len();
    for i in 0..n
        invariant
            n == backups@.len(),
            r@.len() == i,
            forall|j: int| 0 <= j < i ==> (#[trigger] r@[j]).0@ == parse_text(backups@[j]@)
                && r@[j].1@ == strip_extension_comps(parse_text(backups@[j]@)),
    {
        let b = FsPath::parse(backups[i].as_str());
        let o = b.strip_extension();
        r.push((b, o));
    }
    r
}

/// Looks for leftover backups under the configuration directory and says where each goes
/// back to. The search refuses the pattern only when the directory's text makes it an
/// invalid glob pattern; which backups are found depends on the disk.
pub fn find_leftovers(config_dir: &FsPath) -> (r: Result<Vec<(FsPath, FsPath)>, ConfigError>)
    ensures
        r is Ok <==> glob_accepts(leftover_pattern_spec(config_dir.display_text())),
        match r {
            Ok(plan) => forall|i: int| 0 <= i < plan@.len() ==> (#[trigger] plan@[i]).1@ == strip_extension_comps(plan@[i].0@),
            Err(ConfigError::InvalidPattern { pattern }) => pattern@ == leftover_pattern_spec(config_dir.display_text()),
        },
{
    let pattern = leftover_pattern(config_dir);
    match glob_matches(pattern.as_str()) {
        Some(hits) => Ok(restore_plan(hits.paths())),
        None => Err(ConfigError::InvalidPattern { pattern }),
    }
}

/// How one leftover backup is moved back.
#[derive(Debug)]
pub struct RestoreStep {
    /// The backup to move.
    pub backup: FsPath,
    /// Where the backup goes.
    pub original: FsPath,
    /// Whether what stands at `original` is removed first.
    pub remove_original: bool,
}

/// How the backup `backup` is moved back to `original`, given whether anything stands at
/// `original`: that is removed first, and only when it is there, so that a backup whose
/// original has gone is restored all the same.
pub fn restore_step(backup: FsPath, original: FsPath, original_present: bool) -> (r: RestoreStep)
    ensures
        r.backup@ == backup@,
        r.backup.display_text() == backup.display_text(),
        r.original@ == original@,
        r.original.display_text() == original.display_text(),
        r.remove_original == original_present,
{
    RestoreStep { backup, original, remove_original: original_present }
}

} // verus!
