//! Matching configuration paths to dotfiles sources.
//!
//! Every dotfiles path is read relative to the dotfiles directory, giving its key. The
//! key is shortened from the left one component at a time: stage `k` drops its first `k`
//! components. At the first stage where the shortened key is non-empty and some
//! configuration path ends with it, that is at the longest suffix of the key that some
//! configuration path ends with, the dotfile is matched to every configuration path that
//! ends with it. A configuration path matched to several dotfiles, and a dotfile matched
//! to several configuration paths, are dropped from the result.
use vstd::prelude::*;
use crate::collections::{PathMap, PathSet, vec_distinct, vec_has, vec_set};
use crate::path::{Comps, FsPath, has_prefix, has_suffix, is_abs};

verus! {

/// The number of leading components of the key that stage `k` has dropped.
pub open spec fn dropped(k: nat) -> nat {
    k
}

/// The number of components that stage `k` drops from the key left by the stage before.
pub open spec fn step(k: nat) -> nat {
    if k == 0 {
        0
    } else {
        1
    }
}

/// Some configuration path ends with `key`.
pub open spec fn ends_in(config: Set<Comps>, key: Comps) -> bool {
    exists|c: Comps| config.contains(c) && has_suffix(c, key)
}

/// The first stage from `k` on at which the shortened key is non-empty and some
/// configuration path ends with it.
pub open spec fn first_hit(config: Set<Comps>, key: Comps, k: nat) -> Option<nat>
    decreases key.len() - k,
{
    if dropped(k) >= key.len() {
        None
    } else if ends_in(config, key.skip(dropped(k) as int)) {
        Some(k)
    } else {
        first_hit(config, key, k + 1)
    }
}

/// The key of a dotfiles path: its components after those of the dotfiles directory.
pub open spec fn dotfile_key(dir: Comps, d: Comps) -> Comps {
    d.skip(dir.len() as int)
}

/// The configuration path `c` is matched to the dotfile `d`: `d` is matched at some
/// stage and `c` ends with the key of `d` as shortened at that stage.
pub open spec fn candidate(config: Set<Comps>, dotfiles: Set<Comps>, dir: Comps, c: Comps, d: Comps) -> bool {
    &&& dotfiles.contains(d)
    &&& config.contains(c)
    &&& match first_hit(config, dotfile_key(dir, d), 0) {
        Some(k) => has_suffix(c, dotfile_key(dir, d).skip(dropped(k) as int)),
        None => false,
    }
}

/// `c` is matched to `d` and to no other dotfile, and `d` to no other configuration path.
pub open spec fn unique_match(config: Set<Comps>, dotfiles: Set<Comps>, dir: Comps, c: Comps, d: Comps) -> bool {
    &&& candidate(config, dotfiles, dir, c, d)
    &&& forall|d2: Comps| #[trigger] candidate(config, dotfiles, dir, c, d2) ==> d2 == d
    &&& forall|c2: Comps| #[trigger] candidate(config, dotfiles, dir, c2, d) ==> c2 == c
}

/// No stage before `k` matched the key, and all of them left it non-empty.
pub open spec fn pending(config: Set<Comps>, key: Comps, k: nat) -> bool {
    forall|j: nat| j < k ==> #[trigger] dropped(j) < key.len() && !ends_in(config, key.skip(dropped(j) as int))
}

/// The first stage at which a pending key is matched is found from `k` on.
proof fn lemma_pending_first_hit(config: Set<Comps>, key: Comps, k: nat)
    requires
        pending(config, key, k),
    ensures
        first_hit(config, key, 0) == first_hit(config, key, k),
    decreases k,
{
    if k > 0 {
        let j = (k - 1) as nat;
        assert(pending(config, key, j));
        lemma_pending_first_hit(config, key, j);
        assert(dropped(j) < key.len() && !ends_in(config, key.skip(dropped(j) as int)));
    }
}

/// Dropping `a` components and then `b` drops `a + b`.
proof fn lemma_skip_skip<T>(s: Seq<T>, a: int, b: int)
    requires
        0 <= a,
        0 <= b,
        a + b <= s.len(),
    ensures
        s.skip(a).skip(b) == s.skip(a + b),
{
    assert(s.skip(a).skip(b) =~= s.skip(a + b));
}

/// The number of components the key has dropped at the start of stage `k`, before the
/// stage drops `step(k)` more.
pub open spec fn stage_start(k: nat) -> nat {
    (dropped(k) - step(k)) as nat
}

/// The path after its first `skip_components` components, when any are left.
pub fn get_path_suffix(path: &FsPath, skip_components: usize) -> (r: Option<FsPath>)
    ensures
        skip_components < path@.len() ==> match r {
            Some(q) => q@ == path@.skip(skip_components as int),
            None => false,
        },
        skip_components >= path@.len() ==> r is None,
{
    path.skip_components(skip_components)
}

/// Every path of `v` is shown by the text that `shown` gives for it.
pub open spec fn texts_agree(v: Seq<FsPath>, shown: Map<Comps, Seq<char>>) -> bool {
    forall|i: int| 0 <= i < v.len() ==> shown.contains_key((#[trigger] v[i])@) && v[i].display_text() == shown[v[i]@]
}

/// The pair `(c, d)` stands at some position of the pair lists `pc`, `pd`.
pub open spec fn in_pairs(pc: Seq<FsPath>, pd: Seq<FsPath>, c: Comps, d: Comps) -> bool {
    exists|p: int| 0 <= p < pc.len() && (#[trigger] pc[p])@ == c && pd[p]@ == d
}

/// No pair stands twice in the pair lists.
pub open spec fn pairs_distinct(pc: Seq<FsPath>, pd: Seq<FsPath>) -> bool {
    forall|p: int, q: int|
        0 <= p < pc.len() && 0 <= q < pc.len() && p != q ==> !((#[trigger] pc[p])@ == (#[trigger] pc[q])@
            && pd[p]@ == pd[q]@)
}

/// The pair at position `q` has a first path at no other position and a second path at
/// no other position.
pub open spec fn kept(pc: Seq<FsPath>, pd: Seq<FsPath>, q: int) -> bool {
    &&& forall|x: int| 0 <= x < pc.len() && x != q ==> (#[trigger] pc[x])@ != pc[q]@
    &&& forall|x: int| 0 <= x < pd.len() && x != q ==> (#[trigger] pd[x])@ != pd[q]@
}

/// Some configuration path of `cs` ends with `key`.
pub open spec fn vec_ends_in(cs: Seq<FsPath>, key: Comps) -> bool {
    exists|j: int| 0 <= j < cs.len() && has_suffix((#[trigger] cs[j])@, key)
}

/// Matches one key against every configuration path, recording a pair for each one that
/// ends with it; tells whether any did.
fn match_key(
    cs: &Vec<FsPath>,
    key: &FsPath,
    value: &FsPath,
    pc: &mut Vec<FsPath>,
    pd: &mut Vec<FsPath>,
    Ghost(cshow): Ghost<Map<Comps, Seq<char>>>,
    Ghost(dshow): Ghost<Map<Comps, Seq<char>>>,
) -> (hit: bool)
    requires
        old(pc)@.len() == old(pd)@.len(),
        vec_distinct(cs@),
        texts_agree(cs@, cshow),
        texts_agree(old(pc)@, cshow),
        texts_agree(old(pd)@, dshow),
        dshow.contains_key(value@),
        value.display_text() == dshow[value@],
    ensures
        texts_agree(final(pc)@, cshow),
        texts_agree(final(pd)@, dshow),
        final(pc)@.len() == final(pd)@.len(),
        final(pc)@.len() >= old(pc)@.len(),
        final(pc)@.take(old(pc)@.len() as int) == old(pc)@,
        final(pd)@.take(old(pd)@.len() as int) == old(pd)@,
        forall|p: int| old(pc)@.len() <= p < final(pc)@.len() ==> (#[trigger] final(pd)@[p])@ == value@,
        forall|p: int| old(pc)@.len() <= p < final(pc)@.len() ==> vec_has(cs@, (#[trigger] final(pc)@[p])@) && has_suffix(final(pc)@[p]@, key@),
        forall|j: int| 0 <= j < cs@.len() && has_suffix((#[trigger] cs@[j])@, key@) ==> exists|p: int| old(pc)@.len() <= p < final(pc)@.len() && (#[trigger] final(pc)@[p])@ == cs@[j]@,
        forall|p: int, q: int| old(pc)@.len() <= p < final(pc)@.len() && old(pc)@.len() <= q < final(pc)@.len() && p != q ==> (#[trigger] final(pc)@[p])@ != (#[trigger] final(pc)@[q])@,
        hit == vec_ends_in(cs@, key@),
{
    let ghost base = old(pc)@.len();
    let ghost mut src: Seq<int> = Seq::empty();
    let mut hit = false;
    let n = cs.len();
    for j in 0..n
        invariant
            n == cs@.len(),
            vec_distinct(cs@),
            pc@.len() == pd@.len(),
            pc@.len() == base + src.len(),
            base == old(pc)@.len(),
            pc@.take(base as int) == old(pc)@,
            pd@.take(base as int) == old(pd)@,
            texts_agree(cs@, cshow),
            texts_agree(pc@, cshow),
            texts_agree(pd@, dshow),
            dshow.contains_key(value@),
            value.display_text() == dshow[value@],
            forall|t: int| 0 <= t < src.len() ==> 0 <= #[trigger] src[t] < j,
            forall|t: int, u: int| 0 <= t < u < src.len() ==> #[trigger] src[t] < #[trigger] src[u],
            forall|t: int| 0 <= t < src.len() ==> (#[trigger] pd@[base + t])@ == value@,
            forall|t: int| 0 <= t < src.len() ==> (#[trigger] pc@[base + t])@ == cs@[src[t]]@ && has_suffix(cs@[src[t]]@, key@),
            forall|jj: int| 0 <= jj < j && has_suffix((#[trigger] cs@[jj])@, key@) ==> exists|t: int| 0 <= t < src.len() && #[trigger] src[t] == jj,
            hit == exists|jj: int| 0 <= jj < j && has_suffix((#[trigger] cs@[jj])@, key@),
    {
        if cs[j].ends_with(key) {
            let ghost before = pc@;
            let ghost before_d = pd@;
            pc.push(cs[j].duplicate());
            pd.push(value.duplicate());
            hit = true;
            proof {
                assert forall|t: int| 0 <= t < pc@.len() implies cshow.contains_key((#[trigger] pc@[t])@) && pc@[t].display_text() == cshow[pc@[t]@] by {
                    if t < before.len() {
                        assert(pc@[t] == before[t]);
                    } else {
                        assert(cs@[j as int]@ == pc@[t]@);
                    }
                }
                assert forall|t: int| 0 <= t < pd@.len() implies dshow.contains_key((#[trigger] pd@[t])@) && pd@[t].display_text() == dshow[pd@[t]@] by {
                    if t < before_d.len() {
                        assert(pd@[t] == before_d[t]);
                    }
                }
                let old_src = src;
                src = src.push(j as int);
                assert(pc@.take(base as int) =~= before.take(base as int));
                assert(pd@.take(base as int) =~= before_d.take(base as int));
                assert forall|t: int| 0 <= t < src.len() implies (#[trigger] pd@[base + t])@ == value@ && pc@[base + t]@ == cs@[src[t]]@ && has_suffix(cs@[src[t]]@, key@) by {
                    if t < old_src.len() {
                        assert(pc@[base + t] == before[base + t]);
                        assert(pd@[base + t] == before_d[base + t]);
                        assert(src[t] == old_src[t]);
                        assert(before_d[base + t]@ == value@);
                    } else {
                        assert(base + t == before.len());
                        assert(pd@[base + t]@ == value@);
                        assert(src[t] == j);
                        assert(pc@[base + t]@ == cs@[j as int]@);
                    }
                }
                assert forall|t: int| 0 <= t < src.len() implies (#[trigger] pc@[base + t])@ == cs@[src[t]]@ && has_suffix(cs@[src[t]]@, key@) by {
                    assert(pd@[base + t]@ == value@);
                }
                assert forall|jj: int| 0 <= jj < j + 1 && has_suffix((#[trigger] cs@[jj])@, key@) implies exists|t: int| 0 <= t < src.len() && #[trigger] src[t] == jj by {
                    if jj == j {
                        assert(src[src.len() - 1] == jj);
                    } else {
                        let t = choose|t: int| 0 <= t < old_src.len() && #[trigger] old_src[t] == jj;
                        assert(src[t] == old_src[t]);
                    }
                }
            }
        }
    }
    proof {
        assert forall|p: int| old(pc)@.len() <= p < pc@.len() implies (#[trigger] pd@[p])@ == value@ by {
            let t = p - base;
            assert(pd@[base + t] == pd@[p]);
        }
        assert forall|p: int| old(pc)@.len() <= p < pc@.len() implies vec_has(cs@, (#[trigger] pc@[p])@) && has_suffix(pc@[p]@, key@) by {
            let t = p - base;
            assert(pc@[base + t] == pc@[p]);
            assert(pd@[base + t] == pd@[p]);
            assert(cs@[src[t]]@ == pc@[p]@);
        }
        assert forall|jj: int| 0 <= jj < cs@.len() && has_suffix((#[trigger] cs@[jj])@, key@) implies exists|p: int| old(pc)@.len() <= p < pc@.len() && (#[trigger] pc@[p])@ == cs@[jj]@ by {
            let t = choose|t: int| 0 <= t < src.len() && #[trigger] src[t] == jj;
            assert(pc@[base + t]@ == cs@[jj]@);
        }
        assert forall|p: int, q: int| old(pc)@.len() <= p < pc@.len() && old(pc)@.len() <= q < pc@.len() && p != q implies (#[trigger] pc@[p])@ != (#[trigger] pc@[q])@ by {
            let t = p - base;
            let u = q - base;
            assert(pc@[base + t] == pc@[p]);
            assert(pc@[base + u] == pc@[q]);
            if t < u {
                assert(src[t] < src[u]);
            } else {
                assert(src[u] < src[t]);
            }
        }
    }
    hit
}

/// What `first_hit` finds lies at or after `k`; the stages between are pending and the
/// stage found has a non-empty key that some configuration path ends with.
proof fn lemma_first_hit_from(config: Set<Comps>, key: Comps, k: nat)
    ensures
        match first_hit(config, key, k) {
            Some(m) => {
                &&& m >= k
                &&& dropped(m) < key.len()
                &&& ends_in(config, key.skip(dropped(m) as int))
                &&& forall|i: nat| k <= i < m ==> #[trigger] dropped(i) < key.len() && !ends_in(config, key.skip(dropped(i) as int))
            },
            None => forall|i: nat| i >= k && #[trigger] dropped(i) < key.len() ==> !ends_in(config, key.skip(dropped(i) as int)),
        },
    decreases key.len() - k,
{
    if dropped(k) >= key.len() {
        assert forall|i: nat| i >= k && #[trigger] dropped(i) < key.len() implies !ends_in(config, key.skip(dropped(i) as int)) by {
        }
    } else if ends_in(config, key.skip(dropped(k) as int)) {
    } else {
        lemma_first_hit_from(config, key, k + 1);
    }
}

/// A key matched at stage `m` was pending before `m`.
proof fn lemma_first_hit_pending(config: Set<Comps>, key: Comps, m: nat)
    requires
        first_hit(config, key, 0) == Some(m),
    ensures
        pending(config, key, m),
        dropped(m) < key.len(),
        ends_in(config, key.skip(dropped(m) as int)),
{
    lemma_first_hit_from(config, key, 0);
}

/// A key pending at stage `k` is matched at `k` or later, if at all.
proof fn lemma_pending_not_before(config: Set<Comps>, key: Comps, k: nat)
    requires
        pending(config, key, k),
    ensures
        match first_hit(config, key, 0) {
            Some(m) => m >= k,
            None => true,
        },
{
    lemma_pending_first_hit(config, key, k);
    lemma_first_hit_from(config, key, k);
}

/// `c` was matched to `d` at a stage before `k`.
pub open spec fn cand_before(config: Set<Comps>, dotfiles: Set<Comps>, dir: Comps, k: nat, c: Comps, d: Comps) -> bool {
    &&& dotfiles.contains(d)
    &&& config.contains(c)
    &&& match first_hit(config, dotfile_key(dir, d), 0) {
        Some(m) => m < k && has_suffix(c, dotfile_key(dir, d).skip(dropped(m) as int)),
        None => false,
    }
}

/// Whether some other position of `v` holds the path at position `p`.
fn occurs_elsewhere(v: &Vec<FsPath>, p: usize) -> (r: bool)
    requires
        p < v@.len(),
    ensures
        r == exists|q: int| 0 <= q < v@.len() && q != p && (#[trigger] v@[q])@ == v@[p as int]@,
{
    let n = v.len();
    for q in 0..n
        invariant
            n == v@.len(),
            p < n,
            forall|x: int| 0 <= x < q && x != p ==> (#[trigger] v@[x])@ != v@[p as int]@,
    {
        if q != p && v[q].same_as(&v[p]) {
            return true;
        }
    }
    false
}

/// The pairs whose first path occurs in no other pair and whose second path occurs in no
/// other pair.
fn unique_pairs(
    pc: &Vec<FsPath>,
    pd: &Vec<FsPath>,
    Ghost(cshow): Ghost<Map<Comps, Seq<char>>>,
    Ghost(dshow): Ghost<Map<Comps, Seq<char>>>,
) -> (r: PathMap)
    requires
        pc@.len() == pd@.len(),
        pairs_distinct(pc@, pd@),
        texts_agree(pc@, cshow),
        texts_agree(pd@, dshow),
    ensures
        forall|c: Comps| #[trigger] r@.contains_key(c) ==> r.shown().contains_key(c) && cshow.contains_key(c) && dshow.contains_key(r@[c])
            && r.shown()[c] == (cshow[c], dshow[r@[c]]),
        forall|c: Comps, d: Comps| (r@.contains_key(c) && r@[c] == d) <==> {
            &&& in_pairs(pc@, pd@, c, d)
            &&& forall|d2: Comps| #[trigger] in_pairs(pc@, pd@, c, d2) ==> d2 == d
            &&& forall|c2: Comps| #[trigger] in_pairs(pc@, pd@, c2, d) ==> c2 == c
        },
{
    let mut r = PathMap::new();
    let n = pc.len();
    proof {
        assert forall|c: Comps| #[trigger] r@.contains_key(c) implies r.shown().contains_key(c) && cshow.contains_key(c) && dshow.contains_key(r@[c])
            && r.shown()[c] == (cshow[c], dshow[r@[c]]) by {
        }
    }
    for p in 0..n
        invariant
            n == pc@.len(),
            pc@.len() == pd@.len(),
            forall|c: Comps| #[trigger] r@.contains_key(c) ==> exists|q: int| 0 <= q < p && (#[trigger] pc@[q])@ == c && r@[c] == pd@[q]@ && kept(pc@, pd@, q),
            forall|q: int| 0 <= q < p && kept(pc@, pd@, q) ==> r@.contains_key((#[trigger] pc@[q])@) && r@[pc@[q]@] == pd@[q]@,
            texts_agree(pc@, cshow),
            texts_agree(pd@, dshow),
            forall|c: Comps| #[trigger] r@.contains_key(c) ==> r.shown().contains_key(c) && cshow.contains_key(c) && dshow.contains_key(r@[c])
                && r.shown()[c] == (cshow[c], dshow[r@[c]]),
    {
        if !occurs_elsewhere(pc, p) && !occurs_elsewhere(pd, p) {
            proof {
                assert(kept(pc@, pd@, p as int));
            }
            let ghost old_r = r@;
            let ghost old_shown = r.shown();
            r.insert(pc[p].duplicate(), pd[p].duplicate());
            proof {
                assert forall|c: Comps| #[trigger] r@.contains_key(c) implies r.shown().contains_key(c) && cshow.contains_key(c) && dshow.contains_key(r@[c])
                    && r.shown()[c] == (cshow[c], dshow[r@[c]]) by {
                    if c == pc@[p as int]@ {
                        assert(r@[c] == pd@[p as int]@);
                        if old_r.contains_key(c) {
                            assert(old_shown[c].0 == cshow[c]);
                        }
                    } else {
                        assert(old_r.contains_key(c));
                    }
                }
                assert forall|q: int| 0 <= q < p + 1 && kept(pc@, pd@, q) implies r@.contains_key((#[trigger] pc@[q])@) && r@[pc@[q]@] == pd@[q]@ by {
                    if q < p {
                        assert(pc@[q]@ != pc@[p as int]@);
                    }
                }
                assert forall|c: Comps| #[trigger] r@.contains_key(c) implies exists|q: int| 0 <= q < p + 1 && (#[trigger] pc@[q])@ == c && r@[c] == pd@[q]@ && kept(pc@, pd@, q) by {
                    if c != pc@[p as int]@ {
                        let q = choose|q: int| 0 <= q < p && (#[trigger] pc@[q])@ == c && old_r[c] == pd@[q]@ && kept(pc@, pd@, q);
                    }
                }
            }
        }
    }
    proof {
        assert forall|c: Comps, d: Comps| (r@.contains_key(c) && r@[c] == d) <==> {
            &&& in_pairs(pc@, pd@, c, d)
            &&& forall|d2: Comps| #[trigger] in_pairs(pc@, pd@, c, d2) ==> d2 == d
            &&& forall|c2: Comps| #[trigger] in_pairs(pc@, pd@, c2, d) ==> c2 == c
        } by {
            if r@.contains_key(c) && r@[c] == d {
                let q = choose|q: int| 0 <= q < n && (#[trigger] pc@[q])@ == c && r@[c] == pd@[q]@ && kept(pc@, pd@, q);
                assert forall|d2: Comps| #[trigger] in_pairs(pc@, pd@, c, d2) implies d2 == d by {
                    let q2 = choose|q2: int| 0 <= q2 < pc@.len() && (#[trigger] pc@[q2])@ == c && pd@[q2]@ == d2;
                    if q2 != q {
                        assert(pc@[q2]@ == pc@[q]@);
                    }
                }
                assert forall|c2: Comps| #[trigger] in_pairs(pc@, pd@, c2, d) implies c2 == c by {
                    let q2 = choose|q2: int| 0 <= q2 < pc@.len() && (#[trigger] pc@[q2])@ == c2 && pd@[q2]@ == d;
                    if q2 != q {
                        assert(pd@[q2]@ == pd@[q]@);
                    }
                }
            }
            if in_pairs(pc@, pd@, c, d) && (forall|d2: Comps| #[trigger] in_pairs(pc@, pd@, c, d2) ==> d2 == d)
                && (forall|c2: Comps| #[trigger] in_pairs(pc@, pd@, c2, d) ==> c2 == c) {
                let q = choose|q: int| 0 <= q < pc@.len() && (#[trigger] pc@[q])@ == c && pd@[q]@ == d;
                assert(kept(pc@, pd@, q)) by {
                    assert forall|x: int| 0 <= x < pc@.len() && x != q implies (#[trigger] pc@[x])@ != pc@[q]@ by {
                        if pc@[x]@ == pc@[q]@ {
                            assert(in_pairs(pc@, pd@, c, pd@[x]@));
                        }
                    }
                    assert forall|x: int| 0 <= x < pd@.len() && x != q implies (#[trigger] pd@[x])@ != pd@[q]@ by {
                        if pd@[x]@ == pd@[q]@ {
                            assert(in_pairs(pc@, pd@, pc@[x]@, d));
                        }
                    }
                }
            }
        }
    }
    r
}

/// The configuration paths of `cs` that end with a key are those of `config` that do.
proof fn lemma_vec_ends_in(cs: Seq<FsPath>, config: Set<Comps>, key: Comps)
    requires
        vec_set(cs) == config,
    ensures
        vec_ends_in(cs, key) == ends_in(config, key),
{
    if vec_ends_in(cs, key) {
        let j = choose|j: int| 0 <= j < cs.len() && has_suffix((#[trigger] cs[j])@, key);
        assert(vec_set(cs).contains(cs[j]@));
    }
    if ends_in(config, key) {
        let c = choose|c: Comps| config.contains(c) && has_suffix(c, key);
        assert(vec_set(cs).contains(c));
        let j = choose|j: int| 0 <= j < cs.len() && (#[trigger] cs[j])@ == c;
    }
}

/// One stage: every pending key is shortened by one more component (by none at the first
/// stage, numbered `skip`); a key left empty
/// is dropped, a key that some configuration path ends with is matched to all such paths,
/// the others are returned for the next stage.
fn run_stage(
    cs: &Vec<FsPath>,
    wk: &Vec<FsPath>,
    wv: &Vec<FsPath>,
    skip: usize,
    pc: &mut Vec<FsPath>,
    pd: &mut Vec<FsPath>,
    Ghost(config): Ghost<Set<Comps>>,
    Ghost(dotfiles): Ghost<Set<Comps>>,
    Ghost(dir): Ghost<Comps>,
    Ghost(cshow): Ghost<Map<Comps, Seq<char>>>,
    Ghost(dshow): Ghost<Map<Comps, Seq<char>>>,
) -> (r: (Vec<FsPath>, Vec<FsPath>))
    requires
        texts_agree(cs@, cshow),
        texts_agree(wv@, dshow),
        texts_agree(old(pc)@, cshow),
        texts_agree(old(pd)@, dshow),
        vec_distinct(cs@),
        vec_set(cs@) == config,
        wk@.len() == wv@.len(),
        old(pc)@.len() == old(pd)@.len(),
        vec_distinct(wv@),
        forall|i: int| 0 <= i < wv@.len() ==> {
            let key = dotfile_key(dir, (#[trigger] wv@[i])@);
            &&& dotfiles.contains(wv@[i]@)
            &&& pending(config, key, skip as nat)
            &&& stage_start(skip as nat) <= key.len()
            &&& wk@[i]@ == key.skip(stage_start(skip as nat) as int)
        },
        forall|c: Comps, d: Comps| #[trigger] in_pairs(old(pc)@, old(pd)@, c, d) <==> cand_before(config, dotfiles, dir, skip as nat, c, d),
        pairs_distinct(old(pc)@, old(pd)@),
    ensures
        texts_agree(final(pc)@, cshow),
        texts_agree(final(pd)@, dshow),
        texts_agree(r.1@, dshow),
        final(pc)@.len() == final(pd)@.len(),
        pairs_distinct(final(pc)@, final(pd)@),
        forall|c: Comps, d: Comps| #[trigger] in_pairs(final(pc)@, final(pd)@, c, d) <==> (cand_before(config, dotfiles, dir, skip as nat, c, d) || (
            vec_has(wv@, d) && config.contains(c) && dropped(skip as nat) < dotfile_key(dir, d).len()
            && has_suffix(c, dotfile_key(dir, d).skip(dropped(skip as nat) as int)))),
        r.0@.len() == r.1@.len(),
        vec_distinct(r.1@),
        forall|t: int| 0 <= t < r.1@.len() ==> {
            let key = dotfile_key(dir, (#[trigger] r.1@[t])@);
            &&& vec_has(wv@, r.1@[t]@)
            &&& dropped(skip as nat) < key.len()
            &&& !ends_in(config, key.skip(dropped(skip as nat) as int))
        },
        forall|t: int| 0 <= t < r.1@.len() ==> (#[trigger] r.0@[t])@ == dotfile_key(dir, r.1@[t]@).skip(dropped(skip as nat) as int),
        forall|i: int| 0 <= i < wv@.len() && dropped(skip as nat) < dotfile_key(dir, (#[trigger] wv@[i])@).len()
            && !ends_in(config, dotfile_key(dir, wv@[i]@).skip(dropped(skip as nat) as int)) ==> vec_has(r.1@, wv@[i]@),
{
    let ghost k = skip as nat;
    let mut nk: Vec<FsPath> = Vec::new();
    let mut nv: Vec<FsPath> = Vec::new();
    let ghost mut nsrc: Seq<int> = Seq::empty();
    let n = wv.len();
    let step_n: usize = if skip == 0 { 0 } else { 1 };
    proof {
        assert(stage_start(k) + step(k) == dropped(k));
    }
    for i in 0..n
        invariant
            n == wv@.len(),
            wk@.len() == wv@.len(),
            k == skip as nat,
            stage_start(k) + step(k) == dropped(k),
            texts_agree(cs@, cshow),
            texts_agree(wv@, dshow),
            texts_agree(pc@, cshow),
            texts_agree(pd@, dshow),
            texts_agree(nv@, dshow),
            step_n as nat == step(k),
            vec_distinct(cs@),
            vec_set(cs@) == config,
            vec_distinct(wv@),
            forall|i: int| 0 <= i < wv@.len() ==> {
                let key = dotfile_key(dir, (#[trigger] wv@[i])@);
                &&& dotfiles.contains(wv@[i]@)
                &&& pending(config, key, k)
                &&& stage_start(k) <= key.len()
                &&& wk@[i]@ == key.skip(stage_start(k) as int)
            },
            pc@.len() == pd@.len(),
            pairs_distinct(pc@, pd@),
            forall|c: Comps, d: Comps| #[trigger] in_pairs(pc@, pd@, c, d) <==> (cand_before(config, dotfiles, dir, k, c, d) || (
                exists|ii: int| 0 <= ii < i && (#[trigger] wv@[ii])@ == d) && config.contains(c) && dropped(k) < dotfile_key(dir, d).len()
                && has_suffix(c, dotfile_key(dir, d).skip(dropped(k) as int))),
            nk@.len() == nv@.len(),
            nsrc.len() == nv@.len(),
            forall|t: int| 0 <= t < nsrc.len() ==> 0 <= #[trigger] nsrc[t] < i,
            forall|t: int, u: int| 0 <= t < u < nsrc.len() ==> #[trigger] nsrc[t] < #[trigger] nsrc[u],
            forall|t: int| 0 <= t < nsrc.len() ==> (#[trigger] nv@[t])@ == wv@[nsrc[t]]@,
            forall|t: int| 0 <= t < nsrc.len() ==> dropped(k) < dotfile_key(dir, wv@[#[trigger] nsrc[t]]@).len()
                && !ends_in(config, dotfile_key(dir, wv@[nsrc[t]]@).skip(dropped(k) as int)),
            forall|t: int| 0 <= t < nsrc.len() ==> (#[trigger] nk@[t])@ == dotfile_key(dir, wv@[nsrc[t]]@).skip(dropped(k) as int),
            forall|ii: int| 0 <= ii < i && dropped(k) < dotfile_key(dir, (#[trigger] wv@[ii])@).len()
                && !ends_in(config, dotfile_key(dir, wv@[ii]@).skip(dropped(k) as int)) ==> exists|t: int| 0 <= t < nsrc.len() && #[trigger] nsrc[t] == ii,
    {
        let ghost key0 = dotfile_key(dir, wv@[i as int]@);
        let ghost pc_before = pc@;
        let ghost pd_before = pd@;
        match get_path_suffix(&wk[i], step_n) {
            Some(key) => {
                proof {
                    lemma_skip_skip(key0, stage_start(k) as int, step(k) as int);
                    assert(key@ == key0.skip(dropped(k) as int));
                }
                proof {
                    assert(dshow.contains_key(wv@[i as int]@));
                }
                let hit = match_key(cs, &key, &wv[i], pc, pd, Ghost(cshow), Ghost(dshow));
                proof {
                    lemma_vec_ends_in(cs@, config, key@);
                    // the pairs recorded now are new
                    lemma_pending_not_before(config, key0, k);
                    assert forall|p: int, q: int| 0 <= p < pc@.len() && 0 <= q < pc@.len() && p != q implies !((#[trigger] pc@[p])@ == (#[trigger] pc@[q])@ && pd@[p]@ == pd@[q]@) by {
                        let base = pc_before.len() as int;
                        if p < base && q < base {
                            assert(pc@[p] == pc_before[p] && pc@[q] == pc_before[q]);
                            assert(pd@[p] == pd_before[p] && pd@[q] == pd_before[q]);
                        } else if p >= base && q >= base {
                        } else {
                            let (o, nw) = if p < base { (p, q) } else { (q, p) };
                            assert(pc@[o] == pc_before[o]);
                            assert(pd@[o] == pd_before[o]);
                            assert(pd@[nw]@ == wv@[i as int]@);
                            if pd@[o]@ == wv@[i as int]@ {
                                assert(in_pairs(pc_before, pd_before, pc_before[o]@, pd_before[o]@));
                                if cand_before(config, dotfiles, dir, k, pc_before[o]@, pd_before[o]@) {
                                } else {
                                    let ii = choose|ii: int| 0 <= ii < i && (#[trigger] wv@[ii])@ == pd_before[o]@;
                                    assert(wv@[ii]@ == wv@[i as int]@);
                                }
                            }
                        }
                    }
                    assert forall|c: Comps, d: Comps| #[trigger] in_pairs(pc@, pd@, c, d) <==> (cand_before(config, dotfiles, dir, k, c, d) || (
                        exists|ii: int| 0 <= ii < i + 1 && (#[trigger] wv@[ii])@ == d) && config.contains(c) && dropped(k) < dotfile_key(dir, d).len()
                        && has_suffix(c, dotfile_key(dir, d).skip(dropped(k) as int))) by {
                        let base = pc_before.len() as int;
                        if in_pairs(pc@, pd@, c, d) {
                            let p = choose|p: int| 0 <= p < pc@.len() && (#[trigger] pc@[p])@ == c && pd@[p]@ == d;
                            if p < base {
                                assert(pc@[p] == pc_before[p] && pd@[p] == pd_before[p]);
                                assert(in_pairs(pc_before, pd_before, c, d));
                                if !cand_before(config, dotfiles, dir, k, c, d) {
                                    let ii = choose|ii: int| 0 <= ii < i && (#[trigger] wv@[ii])@ == d;
                                    assert(0 <= ii < i + 1 && wv@[ii]@ == d);
                                }
                            } else {
                                assert(d == wv@[i as int]@);
                                assert(vec_set(cs@).contains(c));
                            }
                        }
                        if cand_before(config, dotfiles, dir, k, c, d) {
                            assert(in_pairs(pc_before, pd_before, c, d));
                            let p = choose|p: int| 0 <= p < pc_before.len() && (#[trigger] pc_before[p])@ == c && pd_before[p]@ == d;
                            assert(pc@[p] == pc_before[p] && pd@[p] == pd_before[p]);
                        } else if (exists|ii: int| 0 <= ii < i + 1 && (#[trigger] wv@[ii])@ == d) && config.contains(c) && dropped(k) < dotfile_key(dir, d).len()
                            && has_suffix(c, dotfile_key(dir, d).skip(dropped(k) as int)) {
                            let ii = choose|ii: int| 0 <= ii < i + 1 && (#[trigger] wv@[ii])@ == d;
                            if ii < i {
                                assert(in_pairs(pc_before, pd_before, c, d));
                                let p = choose|p: int| 0 <= p < pc_before.len() && (#[trigger] pc_before[p])@ == c && pd_before[p]@ == d;
                                assert(pc@[p] == pc_before[p] && pd@[p] == pd_before[p]);
                            } else {
                                assert(vec_set(cs@).contains(c));
                                let j = choose|j: int| 0 <= j < cs@.len() && (#[trigger] cs@[j])@ == c;
                                assert(has_suffix(cs@[j]@, key@));
                                let p = choose|p: int| pc_before.len() <= p < pc@.len() && (#[trigger] pc@[p])@ == cs@[j]@;
                                assert(pd@[p]@ == wv@[i as int]@);
                            }
                        }
                    }
                }
                if !hit {
                    let ghost old_nv = nv@;
                    nk.push(key);
                    nv.push(wv[i].duplicate());
                    proof {
                        assert forall|t: int| 0 <= t < nv@.len() implies dshow.contains_key((#[trigger] nv@[t])@) && nv@[t].display_text() == dshow[nv@[t]@] by {
                            if t < old_nv.len() {
                                assert(nv@[t] == old_nv[t]);
                            } else {
                                assert(nv@[t]@ == wv@[i as int]@);
                            }
                        }
                        let old_src = nsrc;
                        nsrc = nsrc.push(i as int);
                        assert forall|t: int| 0 <= t < nsrc.len() implies (#[trigger] nv@[t])@ == wv@[nsrc[t]]@ by {
                            if t < old_src.len() {
                                assert(nsrc[t] == old_src[t]);
                            }
                        }
                        assert forall|t: int| 0 <= t < nsrc.len() implies dropped(k) < dotfile_key(dir, wv@[#[trigger] nsrc[t]]@).len()
                            && !ends_in(config, dotfile_key(dir, wv@[nsrc[t]]@).skip(dropped(k) as int)) by {
                            if t < old_src.len() {
                                assert(nsrc[t] == old_src[t]);
                            }
                        }
                        assert forall|t: int| 0 <= t < nsrc.len() implies (#[trigger] nk@[t])@ == dotfile_key(dir, wv@[nsrc[t]]@).skip(dropped(k) as int) by {
                            if t < old_src.len() {
                                assert(nsrc[t] == old_src[t]);
                            }
                        }
                        assert forall|ii: int| 0 <= ii < i + 1 && dropped(k) < dotfile_key(dir, (#[trigger] wv@[ii])@).len()
                            && !ends_in(config, dotfile_key(dir, wv@[ii]@).skip(dropped(k) as int)) implies exists|t: int| 0 <= t < nsrc.len() && #[trigger] nsrc[t] == ii by {
                            if ii == i {
                                assert(nsrc[nsrc.len() - 1] == ii);
                            } else {
                                let t = choose|t: int| 0 <= t < old_src.len() && #[trigger] old_src[t] == ii;
                                assert(nsrc[t] == old_src[t]);
                            }
                        }
                    }
                } else {
                    proof {
                        assert forall|ii: int| 0 <= ii < i + 1 && dropped(k) < dotfile_key(dir, (#[trigger] wv@[ii])@).len()
                            && !ends_in(config, dotfile_key(dir, wv@[ii]@).skip(dropped(k) as int)) implies exists|t: int| 0 <= t < nsrc.len() && #[trigger] nsrc[t] == ii by {
                        }
                    }
                }
            },
            None => {
                proof {
                    assert(dropped(k) >= key0.len());
                    assert forall|c: Comps, d: Comps| #[trigger] in_pairs(pc@, pd@, c, d) <==> (cand_before(config, dotfiles, dir, k, c, d) || (
                        exists|ii: int| 0 <= ii < i + 1 && (#[trigger] wv@[ii])@ == d) && config.contains(c) && dropped(k) < dotfile_key(dir, d).len()
                        && has_suffix(c, dotfile_key(dir, d).skip(dropped(k) as int))) by {
                        if (exists|ii: int| 0 <= ii < i + 1 && (#[trigger] wv@[ii])@ == d) && dropped(k) < dotfile_key(dir, d).len() {
                            let ii = choose|ii: int| 0 <= ii < i + 1 && (#[trigger] wv@[ii])@ == d;
                            assert(ii < i);
                        }
                    }
                }
            },
        }
    }
    proof {
        assert forall|t: int, u: int| 0 <= t < nv@.len() && 0 <= u < nv@.len() && t != u implies (#[trigger] nv@[t])@ != (#[trigger] nv@[u])@ by {
            if t < u {
                assert(nsrc[t] < nsrc[u]);
            } else {
                assert(nsrc[u] < nsrc[t]);
            }
        }
        assert forall|t: int| 0 <= t < nv@.len() implies vec_has(wv@, (#[trigger] nv@[t])@) by {
            assert(wv@[nsrc[t]]@ == nv@[t]@);
        }
        assert forall|t: int| 0 <= t < nv@.len() implies {
            let key = dotfile_key(dir, (#[trigger] nv@[t])@);
            &&& dropped(k) < key.len()
            &&& !ends_in(config, key.skip(dropped(k) as int))
        } by {
            assert(wv@[nsrc[t]]@ == nv@[t]@);
        }
        assert forall|t: int| 0 <= t < nv@.len() implies (#[trigger] nk@[t])@ == dotfile_key(dir, nv@[t]@).skip(dropped(k) as int) by {
            assert(wv@[nsrc[t]]@ == nv@[t]@);
        }
        assert forall|i: int| 0 <= i < wv@.len() && dropped(k) < dotfile_key(dir, (#[trigger] wv@[i])@).len()
            && !ends_in(config, dotfile_key(dir, wv@[i]@).skip(dropped(k) as int)) implies vec_has(nv@, wv@[i]@) by {
            let t = choose|t: int| 0 <= t < nsrc.len() && #[trigger] nsrc[t] == i;
            assert(nv@[t]@ == wv@[i]@);
        }
        assert forall|c: Comps, d: Comps| #[trigger] in_pairs(pc@, pd@, c, d) <==> (cand_before(config, dotfiles, dir, k, c, d) || (
            vec_has(wv@, d) && config.contains(c) && dropped(k) < dotfile_key(dir, d).len()
            && has_suffix(c, dotfile_key(dir, d).skip(dropped(k) as int)))) by {
            if vec_has(wv@, d) {
                let ii = choose|ii: int| 0 <= ii < wv@.len() && (#[trigger] wv@[ii])@ == d;
            }
            if exists|ii: int| 0 <= ii < n && (#[trigger] wv@[ii])@ == d {
                let ii = choose|ii: int| 0 <= ii < n && (#[trigger] wv@[ii])@ == d;
                assert(vec_has(wv@, d));
            }
        }
    }
    (nk, nv)
}

/// Errors of matching.
#[derive(Debug)]
pub enum MatchError {
    /// A path that must be absolute is relative.
    NotAbsolute { path: FsPath },
}

/// The position of the first relative path of `v`, if any.
fn find_relative(v: &Vec<FsPath>) -> (r: Option<usize>)
    ensures
        match r {
            Some(i) => i < v@.len() && !is_abs(v@[i as int]@),
            None => forall|i: int| 0 <= i < v@.len() ==> is_abs((#[trigger] v@[i])@),
        },
{
    let n = v.len();
    for i in 0..n
        invariant
            n == v@.len(),
            forall|j: int| 0 <= j < i ==> is_abs((#[trigger] v@[j])@),
    {
        if !v[i].is_absolute() {
            return Some(i);
        }
    }
    None
}

} // verus!

verus! {

/// A key pending at stage `k` that stage `k` leaves non-empty and unmatched is pending at
/// stage `k + 1`.
proof fn lemma_pending_step(config: Set<Comps>, key: Comps, k: nat)
    requires
        pending(config, key, k),
        dropped(k) < key.len(),
        !ends_in(config, key.skip(dropped(k) as int)),
    ensures
        pending(config, key, k + 1),
{
    assert forall|j: nat| j < k + 1 implies #[trigger] dropped(j) < key.len() && !ends_in(config, key.skip(dropped(j) as int)) by {
        if j < k {
        }
    }
}

/// Pending at a stage means pending at every earlier stage.
proof fn lemma_pending_mono(config: Set<Comps>, key: Comps, j: nat, k: nat)
    requires
        pending(config, key, k),
        j <= k,
    ensures
        pending(config, key, j),
{
}

/// The keys of the dotfiles paths.
fn dotfile_keys(ds: &Vec<FsPath>, dir: &FsPath) -> (r: Vec<FsPath>)
    requires
        forall|i: int| 0 <= i < ds@.len() ==> has_prefix((#[trigger] ds@[i])@, dir@),
    ensures
        r@.len() == ds@.len(),
        forall|i: int| 0 <= i < ds@.len() ==> (#[trigger] r@[i])@ == dotfile_key(dir@, ds@[i]@),
{
    let mut r: Vec<FsPath> = Vec::new();
    let n = ds.len();
    for i in 0..n
        invariant
            n == ds@.len(),
            forall|i: int| 0 <= i < ds@.len() ==> has_prefix((#[trigger] ds@[i])@, dir@),
            r@.len() == i,
            forall|j: int| 0 <= j < i ==> (#[trigger] r@[j])@ == dotfile_key(dir@, ds@[j]@),
    {
        let ghost d = ds@[i as int]@;
        match ds[i].strip_prefix(dir) {
            Some(k) => {
                r.push(k);
            },
            None => {
                assert(false);
            },
        }
    }
    r
}

/// The greatest number of components among the paths of `v`.
fn longest(v: &Vec<FsPath>) -> (r: usize)
    ensures
        forall|i: int| 0 <= i < v@.len() ==> (#[trigger] v@[i])@.len() <= r,
{
    let mut r: usize = 0;
    let n = v.len();
    for i in 0..n
        invariant
            n == v@.len(),
            forall|j: int| 0 <= j < i ==> (#[trigger] v@[j])@.len() <= r,
    {
        let l = v[i].len();
        if l > r {
            r = l;
        }
    }
    r
}

/// Every path of a set is absolute.
pub open spec fn all_abs(paths: Set<Comps>) -> bool {
    forall|p: Comps| #[trigger] paths.contains(p) ==> is_abs(p)
}

/// Matches configuration paths to dotfiles paths (see the module documentation). Every
/// path must be absolute; the first relative one found is reported.
pub fn match_config_to_dotfiles(
    config_paths: &PathSet,
    dotfiles_paths: PathSet,
    dotfiles_config_dir: &FsPath,
) -> (r: Result<PathMap, MatchError>)
    requires
        all_abs(config_paths@) && all_abs(dotfiles_paths@) ==> forall|d: Comps|
            #[trigger] dotfiles_paths@.contains(d) ==> has_prefix(d, dotfiles_config_dir@),
    ensures
        r is Ok <==> all_abs(config_paths@) && all_abs(dotfiles_paths@),
        match r {
            Ok(m) => forall|c: Comps, d: Comps| (m@.contains_key(c) && m@[c] == d) <==> unique_match(
                config_paths@,
                dotfiles_paths@,
                dotfiles_config_dir@,
                c,
                d,
            ),
            Err(MatchError::NotAbsolute { path }) => !is_abs(path@) && (config_paths@.contains(path@)
                || dotfiles_paths@.contains(path@)),
        },
        match r {
            Ok(m) => forall|c: Comps| #[trigger] m@.contains_key(c) ==> {
                &&& m.shown().contains_key(c)
                &&& config_paths.shown().contains_key(c)
                &&& dotfiles_paths.shown().contains_key(m@[c])
                &&& m.shown()[c] == (config_paths.shown()[c], dotfiles_paths.shown()[m@[c]])
            },
            Err(_) => true,
        },
{
    let ghost config = config_paths@;
    let ghost dotfiles = dotfiles_paths@;
    let ghost dir = dotfiles_config_dir@;
    let ghost cshow = config_paths.shown();
    let ghost dshow = dotfiles_paths.shown();
    let cs = config_paths.to_vec();
    let ds = dotfiles_paths.to_vec();
    match find_relative(&cs) {
        Some(i) => {
            proof {
                assert(vec_set(cs@).contains(cs@[i as int]@));
            }
            return Err(MatchError::NotAbsolute { path: cs[i].duplicate() });
        },
        None => {},
    }
    match find_relative(&ds) {
        Some(i) => {
            proof {
                assert(vec_set(ds@).contains(ds@[i as int]@));
                assert(all_abs(config)) by {
                    assert forall|p: Comps| #[trigger] config.contains(p) implies is_abs(p) by {
                        assert(vec_set(cs@).contains(p));
                        let j = choose|j: int| 0 <= j < cs@.len() && (#[trigger] cs@[j])@ == p;
                    }
                }
            }
            return Err(MatchError::NotAbsolute { path: ds[i].duplicate() });
        },
        None => {},
    }
    proof {
        assert forall|p: Comps| #[trigger] config.contains(p) implies is_abs(p) by {
            assert(vec_set(cs@).contains(p));
            let j = choose|j: int| 0 <= j < cs@.len() && (#[trigger] cs@[j])@ == p;
        }
        assert forall|p: Comps| #[trigger] dotfiles.contains(p) implies is_abs(p) by {
            assert(vec_set(ds@).contains(p));
            let j = choose|j: int| 0 <= j < ds@.len() && (#[trigger] ds@[j])@ == p;
        }
        assert forall|i: int| 0 <= i < ds@.len() implies has_prefix((#[trigger] ds@[i])@, dir) by {
            assert(vec_set(ds@).contains(ds@[i]@));
        }
    }
    let mut wk = dotfile_keys(&ds, dotfiles_config_dir);
    let mut wv = crate::collections::copy_paths(&ds);
    let bound = longest(&ds);
    let mut pc: Vec<FsPath> = Vec::new();
    let mut pd: Vec<FsPath> = Vec::new();
    let mut skip: usize = 0;
    proof {
        assert(vec_distinct(wv@)) by {
            assert forall|a: int, b: int| 0 <= a < wv@.len() && 0 <= b < wv@.len() && a != b implies (#[trigger] wv@[a])@ != (#[trigger] wv@[b])@ by {
                assert(wv@[a]@ == ds@[a]@ && wv@[b]@ == ds@[b]@);
            }
        }
        assert forall|i: int| 0 <= i < wv@.len() implies {
            let key = dotfile_key(dir, (#[trigger] wv@[i])@);
            &&& dotfiles.contains(wv@[i]@)
            &&& pending(config, key, 0)
            &&& stage_start(0) <= key.len()
            &&& wk@[i]@ == key.skip(stage_start(0) as int)
            &&& key.len() <= bound
        } by {
            assert(wv@[i]@ == ds@[i]@);
            assert(vec_set(ds@).contains(ds@[i]@));
            let key = dotfile_key(dir, wv@[i]@);
            assert(key.skip(0) =~= key);
        }
        assert forall|d: Comps| dotfiles.contains(d) && #[trigger] pending(config, dotfile_key(dir, d), 0) implies vec_has(wv@, d) by {
            assert(vec_set(ds@).contains(d));
            let j = choose|j: int| 0 <= j < ds@.len() && (#[trigger] ds@[j])@ == d;
            assert(wv@[j]@ == d);
        }
        assert forall|c: Comps, d: Comps| #[trigger] in_pairs(pc@, pd@, c, d) <==> cand_before(config, dotfiles, dir, 0, c, d) by {}
        assert(texts_agree(cs@, cshow));
        assert forall|i: int| 0 <= i < wv@.len() implies dshow.contains_key((#[trigger] wv@[i])@) && wv@[i].display_text() == dshow[wv@[i]@] by {
            assert(wv@[i]@ == ds@[i]@);
            assert(wv@[i].display_text() == ds@[i].display_text());
        }
    }
    loop
        invariant_except_break
            texts_agree(cs@, cshow),
            texts_agree(wv@, dshow),
            texts_agree(pc@, cshow),
            texts_agree(pd@, dshow),
            vec_distinct(cs@),
            vec_set(cs@) == config,
            wk@.len() == wv@.len(),
            pc@.len() == pd@.len(),
            vec_distinct(wv@),
            skip <= bound + 1,
            forall|i: int| 0 <= i < wv@.len() ==> {
                let key = dotfile_key(dir, (#[trigger] wv@[i])@);
                &&& dotfiles.contains(wv@[i]@)
                &&& pending(config, key, skip as nat)
                &&& stage_start(skip as nat) <= key.len()
                &&& wk@[i]@ == key.skip(stage_start(skip as nat) as int)
                &&& key.len() <= bound
            },
            forall|d: Comps| dotfiles.contains(d) && #[trigger] pending(config, dotfile_key(dir, d), skip as nat) ==> vec_has(wv@, d),
            forall|c: Comps, d: Comps| #[trigger] in_pairs(pc@, pd@, c, d) <==> cand_before(config, dotfiles, dir, skip as nat, c, d),
            pairs_distinct(pc@, pd@),
        ensures
            texts_agree(pc@, cshow),
            texts_agree(pd@, dshow),
            pc@.len() == pd@.len(),
            pairs_distinct(pc@, pd@),
            forall|c: Comps, d: Comps| #[trigger] in_pairs(pc@, pd@, c, d) <==> candidate(config, dotfiles, dir, c, d),
        decreases bound + 1 - skip,
    {
        if wv.len() == 0 {
            proof {
                lemma_all_matched(config, dotfiles, dir, skip as nat, pc@, pd@);
            }
            break;
        }
        let ghost k = skip as nat;
        let (nk, nv) = run_stage(&cs, &wk, &wv, skip, &mut pc, &mut pd, Ghost(config), Ghost(dotfiles), Ghost(dir), Ghost(cshow), Ghost(dshow));
        proof {
            assert(stage_start(k + 1) == dropped(k));
            assert forall|c: Comps, d: Comps| #[trigger] in_pairs(pc@, pd@, c, d) <==> cand_before(config, dotfiles, dir, k + 1, c, d) by {
                if dotfiles.contains(d) && config.contains(c) {
                    let key = dotfile_key(dir, d);
                    match first_hit(config, key, 0) {
                        Some(m) => {
                            if m == k {
                                lemma_first_hit_pending(config, key, m);
                                assert(vec_has(wv@, d));
                            }
                        },
                        None => {},
                    }
                    if vec_has(wv@, d) && dropped(k) < key.len() && has_suffix(c, key.skip(dropped(k) as int)) {
                        let i = choose|i: int| 0 <= i < wv@.len() && (#[trigger] wv@[i])@ == d;
                        assert(pending(config, key, k));
                        lemma_pending_first_hit(config, key, k);
                        assert(ends_in(config, key.skip(dropped(k) as int)));
                    }
                }
                if vec_has(wv@, d) {
                    let i = choose|i: int| 0 <= i < wv@.len() && (#[trigger] wv@[i])@ == d;
                    assert(dotfiles.contains(d));
                }
            }
            assert forall|t: int| 0 <= t < nv@.len() implies {
                let key = dotfile_key(dir, (#[trigger] nv@[t])@);
                &&& dotfiles.contains(nv@[t]@)
                &&& pending(config, key, k + 1)
                &&& stage_start(k + 1) <= key.len()
                &&& nk@[t]@ == key.skip(stage_start(k + 1) as int)
                &&& key.len() <= bound
            } by {
                let key = dotfile_key(dir, nv@[t]@);
                let i = choose|i: int| 0 <= i < wv@.len() && (#[trigger] wv@[i])@ == nv@[t]@;
                lemma_pending_step(config, key, k);
                assert(nk@[t]@ == key.skip(dropped(k) as int));
            }
            assert forall|d: Comps| dotfiles.contains(d) && #[trigger] pending(config, dotfile_key(dir, d), k + 1) implies vec_has(nv@, d) by {
                let key = dotfile_key(dir, d);
                lemma_pending_mono(config, key, k, k + 1);
                assert(pending(config, key, k));
                let i = choose|i: int| 0 <= i < wv@.len() && (#[trigger] wv@[i])@ == d;
                assert(dropped(k) < key.len());
            }
        }
        wk = nk;
        wv = nv;
        if wv.len() == 0 {
            proof {
                lemma_all_matched(config, dotfiles, dir, k + 1, pc@, pd@);
            }
            break;
        }
        proof {
            let key = dotfile_key(dir, wv@[0]@);
            assert(dropped(k) < key.len());
        }
        skip = skip + 1;
    }
    let m = unique_pairs(&pc, &pd, Ghost(cshow), Ghost(dshow));
    proof {
        assert forall|c: Comps, d: Comps| (m@.contains_key(c) && m@[c] == d) <==> unique_match(config, dotfiles, dir, c, d) by {
            if in_pairs(pc@, pd@, c, d) {
                assert(candidate(config, dotfiles, dir, c, d));
            }
            if (forall|d2: Comps| #[trigger] in_pairs(pc@, pd@, c, d2) ==> d2 == d) {
                assert forall|d2: Comps| #[trigger] candidate(config, dotfiles, dir, c, d2) implies d2 == d by {
                    assert(in_pairs(pc@, pd@, c, d2));
                }
            }
            if (forall|d2: Comps| #[trigger] candidate(config, dotfiles, dir, c, d2) ==> d2 == d) {
                assert forall|d2: Comps| #[trigger] in_pairs(pc@, pd@, c, d2) implies d2 == d by {
                    assert(candidate(config, dotfiles, dir, c, d2));
                }
            }
            if (forall|c2: Comps| #[trigger] in_pairs(pc@, pd@, c2, d) ==> c2 == c) {
                assert forall|c2: Comps| #[trigger] candidate(config, dotfiles, dir, c2, d) implies c2 == c by {
                    assert(in_pairs(pc@, pd@, c2, d));
                }
            }
            if (forall|c2: Comps| #[trigger] candidate(config, dotfiles, dir, c2, d) ==> c2 == c) {
                assert forall|c2: Comps| #[trigger] in_pairs(pc@, pd@, c2, d) implies c2 == c by {
                    assert(candidate(config, dotfiles, dir, c2, d));
                }
            }
        }
    }
    Ok(m)
}

/// Matching is one to one: a dotfile is matched to at most one configuration path, and a
/// configuration path to at most one dotfile.
pub proof fn lemma_match_one_to_one(
    config: Set<Comps>,
    dotfiles: Set<Comps>,
    dir: Comps,
    c1: Comps,
    d1: Comps,
    c2: Comps,
    d2: Comps,
)
    requires
        unique_match(config, dotfiles, dir, c1, d1),
        unique_match(config, dotfiles, dir, c2, d2),
    ensures
        c1 == c2 <==> d1 == d2,
{
    if d1 == d2 {
        assert(candidate(config, dotfiles, dir, c2, d1));
    }
    if c1 == c2 {
        assert(candidate(config, dotfiles, dir, c1, d2));
    }
}

/// A configuration path that two dotfiles are matched to, an ambiguous match, is in no
/// mapping.
pub proof fn lemma_ambiguous_dropped(
    config: Set<Comps>,
    dotfiles: Set<Comps>,
    dir: Comps,
    c: Comps,
    d1: Comps,
    d2: Comps,
    d: Comps,
)
    requires
        candidate(config, dotfiles, dir, c, d1),
        candidate(config, dotfiles, dir, c, d2),
        d1 != d2,
    ensures
        !unique_match(config, dotfiles, dir, c, d),
{
    if unique_match(config, dotfiles, dir, c, d) {
        assert(d1 == d);
        assert(d2 == d);
    }
}

/// A dotfile is matched by the longest suffix of its key that some configuration path ends
/// with: its configuration path ends with the key less its first `n` components, and no
/// configuration path ends with a longer suffix of the key.
pub proof fn lemma_match_longest_suffix(config: Set<Comps>, dotfiles: Set<Comps>, dir: Comps, c: Comps, d: Comps)
    requires
        candidate(config, dotfiles, dir, c, d),
    ensures
        exists|n: nat| #![trigger dotfile_key(dir, d).skip(n as int)]
            n < dotfile_key(dir, d).len() && has_suffix(c, dotfile_key(dir, d).skip(n as int))
            && forall|j: nat| j < n ==> !ends_in(config, #[trigger] dotfile_key(dir, d).skip(j as int)),
{
    let key = dotfile_key(dir, d);
    let m = first_hit(config, key, 0)->0;
    lemma_first_hit_pending(config, key, m);
    assert forall|j: nat| j < m implies !ends_in(config, #[trigger] key.skip(j as int)) by {
        assert(dropped(j) < key.len());
    }
    assert(has_suffix(c, key.skip(m as int)));
}

/// A matched configuration path and its dotfile end with the same non-empty components,
/// and those are the last components of the dotfile's key.
pub proof fn lemma_match_shares_tail(config: Set<Comps>, dotfiles: Set<Comps>, dir: Comps, c: Comps, d: Comps)
    requires
        candidate(config, dotfiles, dir, c, d),
        has_prefix(d, dir),
    ensures
        exists|tail: Comps| #![trigger has_suffix(c, tail)]
            tail.len() > 0 && has_suffix(c, tail) && has_suffix(d, tail) && has_suffix(dotfile_key(dir, d), tail),
{
    let key = dotfile_key(dir, d);
    let m = first_hit(config, key, 0)->0;
    lemma_first_hit_pending(config, key, m);
    let tail = key.skip(dropped(m) as int);
    assert(has_suffix(key, tail)) by {
        assert(key.subrange(key.len() - tail.len(), key.len() as int) =~= tail);
    }
    assert(has_suffix(d, tail)) by {
        assert(d.subrange(d.len() - tail.len(), d.len() as int) =~= tail);
    }
}

/// When no dotfile is pending at stage `k`, the pairs matched before `k` are all the pairs.
proof fn lemma_all_matched(
    config: Set<Comps>,
    dotfiles: Set<Comps>,
    dir: Comps,
    k: nat,
    pc: Seq<FsPath>,
    pd: Seq<FsPath>,
)
    requires
        forall|d: Comps| dotfiles.contains(d) ==> !#[trigger] pending(config, dotfile_key(dir, d), k),
        forall|c: Comps, d: Comps| #[trigger] in_pairs(pc, pd, c, d) <==> cand_before(config, dotfiles, dir, k, c, d),
    ensures
        forall|c: Comps, d: Comps| #[trigger] in_pairs(pc, pd, c, d) <==> candidate(config, dotfiles, dir, c, d),
{
    assert forall|c: Comps, d: Comps| #[trigger] in_pairs(pc, pd, c, d) <==> candidate(config, dotfiles, dir, c, d) by {
        if candidate(config, dotfiles, dir, c, d) {
            let key = dotfile_key(dir, d);
            let m = first_hit(config, key, 0)->0;
            lemma_first_hit_pending(config, key, m);
            if m >= k {
                lemma_pending_mono(config, key, k, m);
            }
        }
    }
}

} // verus!
