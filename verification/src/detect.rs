//! Choosing the configuration files to watch among the entries of a directory walk.
use vstd::prelude::*;
use crate::collections::PathSet;
use crate::path::{Comps, FsPath};

verus! {

/// What a directory walk tells of one entry.
#[derive(Debug)]
pub struct EntryFacts {
    /// The entry's path.
    pub path: FsPath,
    /// The entry is a symbolic link.
    pub is_symlink: bool,
    /// The link's target could be read.
    pub link_readable: bool,
    /// The entry is a regular file.
    pub is_file: bool,
}

/// Errors of detection.
#[derive(Debug)]
pub enum DetectError {
    /// The directory to search is not a directory.
    NotADirectory { path: FsPath },
}

/// An entry is kept: it is not excluded, and it is a readable link while links are
/// detected, or a regular file while files are detected.
pub open spec fn entry_selected(e: EntryFacts, exclude: Set<Comps>, detect_symlinks: bool, detect_files: bool) -> bool {
    &&& !exclude.contains(e.path@)
    &&& ((detect_symlinks && e.is_symlink && e.link_readable) || (detect_files && e.is_file))
}

/// The paths of the kept entries.
pub open spec fn selected_paths(entries: Seq<EntryFacts>, exclude: Set<Comps>, detect_symlinks: bool, detect_files: bool) -> Set<Comps> {
    Set::new(|p: Comps| exists|i: int| 0 <= i < entries.len() && (#[trigger] entries[i]).path@ == p
        && entry_selected(entries[i], exclude, detect_symlinks, detect_files))
}

/// The entry at position `j` is the first kept entry with the path `p`.
pub open spec fn first_selected(entries: Seq<EntryFacts>, exclude: Set<Comps>, detect_symlinks: bool, detect_files: bool, p: Comps, j: int) -> bool {
    &&& 0 <= j < entries.len()
    &&& entries[j].path@ == p
    &&& entry_selected(entries[j], exclude, detect_symlinks, detect_files)
    &&& forall|j2: int| 0 <= j2 < j ==> !((#[trigger] entries[j2]).path@ == p && entry_selected(entries[j2], exclude, detect_symlinks, detect_files))
}

/// The configuration paths among the entries of a walk of `config_dir`. With neither kind
/// detected the result is empty. Each path is shown by the text of the first kept entry
/// with that path.
pub fn select_config_paths(
    config_dir: &FsPath,
    config_dir_is_dir: bool,
    entries: &Vec<EntryFacts>,
    exclude_set: &PathSet,
    detect_symlinks: bool,
    detect_files: bool,
) -> (r: Result<PathSet, DetectError>)
    ensures
        match r {
            Ok(s) => {
                &&& config_dir_is_dir
                &&& s@ == selected_paths(entries@, exclude_set@, detect_symlinks, detect_files)
                &&& forall|p: Comps| #[trigger] s@.contains(p) ==> s.shown().contains_key(p) && exists|j: int|
                    first_selected(entries@, exclude_set@, detect_symlinks, detect_files, p, j)
                    && s.shown()[p] == entries@[j].path.display_text()
            },
            Err(DetectError::NotADirectory { path }) => !config_dir_is_dir && path@ == config_dir@,
        },
{
    if !config_dir_is_dir {
        return Err(DetectError::NotADirectory { path: config_dir.duplicate() });
    }
    let mut s = PathSet::new();
    let n = entries.len();
    for i in 0..n
        invariant
            n == entries@.len(),
            forall|p: Comps| #[trigger] s@.contains(p) <==> exists|j: int| 0 <= j < i && (#[trigger] entries@[j]).path@ == p
                && entry_selected(entries@[j], exclude_set@, detect_symlinks, detect_files),
            s.shown().dom() == s@,
            forall|p: Comps| #[trigger] s@.contains(p) ==> exists|j: int| j < i
                && first_selected(entries@, exclude_set@, detect_symlinks, detect_files, p, j)
                && s.shown()[p] == entries@[j].path.display_text(),
    {
        let e = &entries[i];
        if !exclude_set.contains(&e.path) && ((detect_symlinks && e.is_symlink && e.link_readable) || (detect_files && e.is_file)) {
            let ghost before = s@;
            let ghost before_shown = s.shown();
            s.insert(e.path.duplicate());
            proof {
                let pv = entries@[i as int].path@;
                assert(s.shown().dom() =~= s@);
                assert forall|p: Comps| #[trigger] s@.contains(p) implies exists|j: int| j < i + 1
                    && first_selected(entries@, exclude_set@, detect_symlinks, detect_files, p, j)
                    && s.shown()[p] == entries@[j].path.display_text() by {
                    if before.contains(p) {
                        let j = choose|j: int| j < i
                            && first_selected(entries@, exclude_set@, detect_symlinks, detect_files, p, j)
                            && before_shown[p] == entries@[j].path.display_text();
                        assert(s.shown()[p] == before_shown[p]);
                    } else {
                        assert(p == pv);
                        assert forall|j2: int| 0 <= j2 < i implies !((#[trigger] entries@[j2]).path@ == p && entry_selected(entries@[j2], exclude_set@, detect_symlinks, detect_files)) by {
                            if entries@[j2].path@ == p && entry_selected(entries@[j2], exclude_set@, detect_symlinks, detect_files) {
                                assert(before.contains(p));
                            }
                        }
                        assert(first_selected(entries@, exclude_set@, detect_symlinks, detect_files, p, i as int));
                    }
                }
                assert forall|p: Comps| #[trigger] s@.contains(p) <==> exists|j: int| 0 <= j < i + 1 && (#[trigger] entries@[j]).path@ == p
                    && entry_selected(entries@[j], exclude_set@, detect_symlinks, detect_files) by {
                    if exists|j: int| 0 <= j < i + 1 && (#[trigger] entries@[j]).path@ == p
                        && entry_selected(entries@[j], exclude_set@, detect_symlinks, detect_files) {
                        let j = choose|j: int| 0 <= j < i + 1 && (#[trigger] entries@[j]).path@ == p
                            && entry_selected(entries@[j], exclude_set@, detect_symlinks, detect_files);
                        if j < i {
                            assert(before.contains(p));
                        }
                    }
                }
            }
        } else {
            proof {
                assert forall|p: Comps| #[trigger] s@.contains(p) <==> exists|j: int| 0 <= j < i + 1 && (#[trigger] entries@[j]).path@ == p
                    && entry_selected(entries@[j], exclude_set@, detect_symlinks, detect_files) by {
                    if exists|j: int| 0 <= j < i + 1 && (#[trigger] entries@[j]).path@ == p
                        && entry_selected(entries@[j], exclude_set@, detect_symlinks, detect_files) {
                        let j = choose|j: int| 0 <= j < i + 1 && (#[trigger] entries@[j]).path@ == p
                            && entry_selected(entries@[j], exclude_set@, detect_symlinks, detect_files);
                        assert(j < i);
                    }
                }
            }
        }
    }
    proof {
        assert(s@ =~= selected_paths(entries@, exclude_set@, detect_symlinks, detect_files));
    }
    Ok(s)
}

/// No excluded path is ever selected.
pub proof fn lemma_excluded_never_selected(entries: Seq<EntryFacts>, exclude: Set<Comps>, detect_symlinks: bool, detect_files: bool, p: Comps)
    requires
        exclude.contains(p),
    ensures
        !selected_paths(entries, exclude, detect_symlinks, detect_files).contains(p),
{
}

/// With neither links nor files detected, nothing is selected.
pub proof fn lemma_nothing_detected(entries: Seq<EntryFacts>, exclude: Set<Comps>)
    ensures
        selected_paths(entries, exclude, false, false) == Set::<Comps>::empty(),
{
    assert(selected_paths(entries, exclude, false, false) =~= Set::<Comps>::empty());
}

} // verus!
