//! Assembling the mappings of a run from the explicit, detected and temporary ones.
use vstd::prelude::*;
use crate::collections::{PathMap, PathSet, vec_distinct, vec_set};
use crate::path::{Comps, FsPath, has_prefix, join_comps};

verus! {

/// The detected mappings with the explicit ones added; an explicit mapping wins over a
/// detected one for the same path.
pub fn merge_mappings(detected: PathMap, explicit: &PathMap) -> (r: PathMap)
    ensures
        r@ == detected@.union_prefer_right(explicit@),
{
    let mut r = detected;
    r.extend(explicit);
    r
}

/// The detected configuration paths that no mapping covers, each once and shown by the
/// text the set shows it by.
pub fn orphaned_paths(detected: &PathSet, mapped: &PathMap) -> (r: Vec<FsPath>)
    ensures
        vec_distinct(r@),
        vec_set(r@) == detected@.filter(|p: Comps| !mapped@.contains_key(p)),
        forall|i: int| 0 <= i < r@.len() ==> detected.shown().contains_key((#[trigger] r@[i])@) && r@[i].display_text() == detected.shown()[r@[i]@],
{
    let all = detected.to_vec();
    let mut r: Vec<FsPath> = Vec::new();
    let ghost mut src: Seq<int> = Seq::empty();
    let n = all.len();
    for i in 0..n
        invariant
            n == all@.len(),
            vec_distinct(all@),
            forall|j: int| 0 <= j < all@.len() ==> detected.shown().contains_key((#[trigger] all@[j])@) && detected.shown()[all@[j]@] == all@[j].display_text(),
            forall|t: int| 0 <= t < r@.len() ==> detected.shown().contains_key((#[trigger] r@[t])@) && r@[t].display_text() == detected.shown()[r@[t]@],
            src.len() == r@.len(),
            forall|t: int| 0 <= t < src.len() ==> 0 <= #[trigger] src[t] < i,
            forall|t: int, u: int| 0 <= t < u < src.len() ==> #[trigger] src[t] < #[trigger] src[u],
            forall|t: int| 0 <= t < src.len() ==> (#[trigger] r@[t])@ == all@[src[t]]@ && !mapped@.contains_key(all@[src[t]]@),
            forall|k: int| 0 <= k < i && !mapped@.contains_key((#[trigger] all@[k])@) ==> exists|t: int| 0 <= t < src.len() && #[trigger] src[t] == k,
    {
        if !mapped.contains_key(&all[i]) {
            let ghost old_r = r@;
            r.push(all[i].duplicate());
            proof {
                let old_src = src;
                src = src.push(i as int);
                assert forall|t: int| 0 <= t < src.len() implies (#[trigger] r@[t])@ == all@[src[t]]@ && !mapped@.contains_key(all@[src[t]]@) by {
                    if t < old_src.len() {
                        assert(src[t] == old_src[t]);
                        assert(r@[t] == old_r[t]);
                    }
                }
                assert forall|t: int| 0 <= t < r@.len() implies detected.shown().contains_key((#[trigger] r@[t])@) && r@[t].display_text() == detected.shown()[r@[t]@] by {
                    if t < old_r.len() {
                        assert(r@[t] == old_r[t]);
                    } else {
                        assert(r@[t]@ == all@[i as int]@);
                    }
                }
                assert forall|k: int| 0 <= k < i + 1 && !mapped@.contains_key((#[trigger] all@[k])@) implies exists|t: int| 0 <= t < src.len() && #[trigger] src[t] == k by {
                    if k == i {
                        assert(src[src.len() - 1] == k);
                    } else {
                        let t = choose|t: int| 0 <= t < old_src.len() && #[trigger] old_src[t] == k;
                        assert(src[t] == old_src[t]);
                    }
                }
            }
        }
    }
    proof {
        assert forall|a: int, b: int| 0 <= a < r@.len() && 0 <= b < r@.len() && a != b implies (#[trigger] r@[a])@ != (#[trigger] r@[b])@ by {
            if a < b {
                assert(src[a] < src[b]);
            } else {
                assert(src[b] < src[a]);
            }
        }
        assert(vec_set(r@) =~= detected@.filter(|p: Comps| !mapped@.contains_key(p))) by {
            assert forall|p: Comps| vec_set(r@).contains(p) == detected@.filter(|p: Comps| !mapped@.contains_key(p)).contains(p) by {
                if crate::collections::vec_has(r@, p) {
                    let j = choose|j: int| 0 <= j < r@.len() && (#[trigger] r@[j])@ == p;
                    assert(all@[src[j]]@ == p);
                    assert(vec_set(all@).contains(p));
                }
                if detected@.contains(p) && !mapped@.contains_key(p) {
                    assert(vec_set(all@).contains(p));
                    let k = choose|k: int| 0 <= k < all@.len() && (#[trigger] all@[k])@ == p;
                    let t = choose|t: int| 0 <= t < src.len() && #[trigger] src[t] == k;
                    assert(r@[t]@ == p);
                }
            }
        }
    }
    r
}

/// Where the temporary copy of an orphaned configuration file goes: the file's path
/// below the configuration directory, placed below the temporary directory.
pub fn tmp_location(path: &FsPath, config_dir: &FsPath, tmp_dir: &FsPath) -> (r: FsPath)
    requires
        has_prefix(path@, config_dir@),
    ensures
        r@ == join_comps(tmp_dir@, path@.skip(config_dir@.len() as int)),
{
    match path.strip_prefix(config_dir) {
        Some(rel) => tmp_dir.join(&rel),
        None => {
            assert(false);
            tmp_dir.duplicate()
        },
    }
}

/// Every detected configuration path is either mapped or an orphan that gets a temporary
/// copy, and no mapped path is an orphan.
pub proof fn lemma_detected_covered(detected: Set<Comps>, mapped: Map<Comps, Comps>, orphans: Seq<FsPath>)
    requires
        vec_set(orphans) == detected.filter(|p: Comps| !mapped.contains_key(p)),
    ensures
        forall|p: Comps| #[trigger] detected.contains(p) ==> mapped.contains_key(p) || vec_set(orphans).contains(p),
        forall|p: Comps| #[trigger] vec_set(orphans).contains(p) ==> detected.contains(p) && !mapped.contains_key(p),
{
}

} // verus!
