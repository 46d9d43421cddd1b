//! Sets of paths and maps from paths to paths.
//!
//! Paths are compared by their components, so these hold each path once whatever text
//! named it.
use vstd::prelude::*;
use crate::path::{Comps, FsPath};

verus! {

/// Whether a path occurs among the paths of `v`.
pub open spec fn vec_has(v: Seq<FsPath>, p: Comps) -> bool {
    exists|i: int| 0 <= i < v.len() && (#[trigger] v[i])@ == p
}

/// The paths of `v` are pairwise different.
pub open spec fn vec_distinct(v: Seq<FsPath>) -> bool {
    forall|i: int, j: int| 0 <= i < v.len() && 0 <= j < v.len() && i != j ==> (#[trigger] v[i])@ != (#[trigger] v[j])@
}

/// The set of the paths of `v`.
pub open spec fn vec_set(v: Seq<FsPath>) -> Set<Comps> {
    Set::new(|p: Comps| vec_has(v, p))
}

/// The position of `p` among the paths of `v`, if it occurs.
pub fn find_path(v: &Vec<FsPath>, p: &FsPath) -> (r: Option<usize>)
    ensures
        match r {
            Some(i) => i < v@.len() && v@[i as int]@ == p@,
            None => !vec_has(v@, p@),
        },
{
    let n = v.len();
    for i in 0..n
        invariant
            n == v@.len(),
            forall|j: int| 0 <= j < i ==> (#[trigger] v@[j])@ != p@,
    {
        if v[i].same_as(p) {
            return Some(i);
        }
    }
    None
}

/// Copies of the paths of `v`.
pub fn copy_paths(v: &Vec<FsPath>) -> (r: Vec<FsPath>)
    ensures
        r@.len() == v@.len(),
        forall|i: int| 0 <= i < v@.len() ==> (#[trigger] r@[i])@ == v@[i]@,
        forall|i: int| 0 <= i < v@.len() ==> (#[trigger] r@[i]).display_text() == v@[i].display_text(),
{
    let mut r: Vec<FsPath> = Vec::new();
    let n = v.len();
    for i in 0..n
        invariant
            n == v@.len(),
            r@.len() == i,
            forall|j: int| 0 <= j < i ==> (#[trigger] r@[j])@ == v@[j]@,
            forall|j: int| 0 <= j < i ==> (#[trigger] r@[j]).display_text() == v@[j].display_text(),
    {
        r.push(v[i].duplicate());
    }
    r
}

/// For each path of `items`, the text that it is shown by.
pub open spec fn shown_set(items: Seq<FsPath>) -> Map<Comps, Seq<char>> {
    Map::new(|k: Comps| vec_has(items, k), |k: Comps| items[key_index(items, k)].display_text())
}

/// A finite set of paths.
#[derive(Debug)]
pub struct PathSet {
    items: Vec<FsPath>,
}

impl View for PathSet {
    type V = Set<Comps>;

    closed spec fn view(&self) -> Set<Comps> {
        vec_set(self.items@)
    }
}

impl PathSet {
    /// For each path of the set, the text it is shown by: the text of the first path
    /// added that names it.
    pub closed spec fn shown(self) -> Map<Comps, Seq<char>> {
        shown_set(self.items@)
    }

    #[verifier::type_invariant]
    closed spec fn inv(self) -> bool {
        vec_distinct(self.items@)
    }

    /// The empty set.
    pub fn new() -> (r: PathSet)
        ensures
            r@ == Set::<Comps>::empty(),
            r.shown() == Map::<Comps, Seq<char>>::empty(),
    {
        let r = PathSet { items: Vec::new() };
        assert(r@ =~= Set::<Comps>::empty());
        assert(r.shown() =~= Map::<Comps, Seq<char>>::empty());
        r
    }

    /// Whether `p` is in the set.
    pub fn contains(&self, p: &FsPath) -> (r: bool)
        ensures
            r == self@.contains(p@),
    {
        find_path(&self.items, p).is_some()
    }

    /// Adds `p`; the set is unchanged when it holds `p` already.
    pub fn insert(&mut self, p: FsPath)
        ensures
            final(self)@ == old(self)@.insert(p@),
            final(self).shown() == if old(self)@.contains(p@) {
                old(self).shown()
            } else {
                old(self).shown().insert(p@, p.display_text())
            },
    {
        proof {
            use_type_invariant(&*self);
        }
        if find_path(&self.items, &p).is_none() {
            let ghost pv = p@;
            let ghost pt = p.display_text();
            let mut items: Vec<FsPath> = Vec::new();
            std::mem::swap(&mut items, &mut self.items);
            items.push(p);
            proof {
                assert(vec_distinct(items@)) by {
                    assert forall|i: int, j: int| 0 <= i < items@.len() && 0 <= j < items@.len() && i != j implies (#[trigger] items@[i])@ != (#[trigger] items@[j])@ by {
                        if i < old(self).items@.len() && j < old(self).items@.len() {
                            assert(items@[i] == old(self).items@[i] && items@[j] == old(self).items@[j]);
                        } else if i < old(self).items@.len() {
                            assert(items@[i] == old(self).items@[i]);
                        } else if j < old(self).items@.len() {
                            assert(items@[j] == old(self).items@[j]);
                        }
                    }
                }
            }
            self.items = items;
            assert(self@ =~= old(self)@.insert(pv)) by {
                assert forall|q: Comps| self@.contains(q) == old(self)@.insert(pv).contains(q) by {
                    if vec_has(old(self).items@, q) {
                        let i = choose|i: int| 0 <= i < old(self).items@.len() && (#[trigger] old(self).items@[i])@ == q;
                        assert(self.items@[i] == old(self).items@[i]);
                    }
                    if q == pv {
                        assert(self.items@[self.items@.len() - 1]@ == pv);
                    }
                    if vec_has(self.items@, q) && q != pv {
                        let i = choose|i: int| 0 <= i < self.items@.len() && (#[trigger] self.items@[i])@ == q;
                        assert(old(self).items@[i] == self.items@[i]);
                    }
                }
            }
            let ghost n = old(self).items@.len();
            assert(shown_set(self.items@) =~= shown_set(old(self).items@).insert(pv, pt)) by {
                assert forall|q: Comps| shown_set(self.items@).contains_key(q) == shown_set(old(self).items@).insert(pv, pt).contains_key(q) by {
                    assert(self@.contains(q) == old(self)@.insert(pv).contains(q));
                }
                assert forall|q: Comps| #[trigger] shown_set(self.items@).contains_key(q) implies
                    shown_set(self.items@)[q] == shown_set(old(self).items@).insert(pv, pt)[q] by {
                    let j = key_index(self.items@, q);
                    lemma_key_index(self.items@, j);
                    if j < n {
                        assert(self.items@[j] == old(self).items@[j]);
                        lemma_key_index(old(self).items@, j);
                        assert(vec_has(old(self).items@, q));
                    } else {
                        assert(self.items@[j] == p);
                    }
                }
            }
        } else {
            assert(self@ =~= old(self)@.insert(p@));
        }
    }

    /// The number of paths in the set.
    pub fn len(&self) -> (n: usize)
        ensures
            self@.finite(),
            n == self@.len(),
    {
        proof {
            use_type_invariant(self);
            lemma_distinct_set_len(self.items@);
        }
        self.items.len()
    }

    /// Whether the set is empty.
    pub fn is_empty(&self) -> (r: bool)
        ensures
            r == (self@ == Set::<Comps>::empty()),
    {
        if self.items.len() == 0 {
            assert(self@ =~= Set::<Comps>::empty());
            true
        } else {
            assert(self@.contains(self.items@[0]@));
            false
        }
    }

    /// The paths of the set, each once.
    pub fn to_vec(&self) -> (r: Vec<FsPath>)
        ensures
            vec_distinct(r@),
            vec_set(r@) == self@,
            forall|i: int| 0 <= i < r@.len() ==> self.shown().contains_key((#[trigger] r@[i])@) && self.shown()[r@[i]@] == r@[i].display_text(),
    {
        proof {
            use_type_invariant(self);
        }
        let r = copy_paths(&self.items);
        assert(vec_set(r@) =~= self@) by {
            assert forall|q: Comps| vec_has(r@, q) == vec_has(self.items@, q) by {
                if vec_has(r@, q) {
                    let i = choose|i: int| 0 <= i < r@.len() && (#[trigger] r@[i])@ == q;
                    assert(self.items@[i]@ == q);
                }
                if vec_has(self.items@, q) {
                    let i = choose|i: int| 0 <= i < self.items@.len() && (#[trigger] self.items@[i])@ == q;
                    assert(r@[i]@ == q);
                }
            }
        }
        assert forall|i: int| 0 <= i < r@.len() implies self.shown().contains_key((#[trigger] r@[i])@) && self.shown()[r@[i]@] == r@[i].display_text() by {
            assert(r@[i]@ == self.items@[i]@);
            lemma_key_index(self.items@, i);
            assert(vec_has(self.items@, self.items@[i]@));
        }
        r
    }
}

/// The position of the path `k` among the paths of `keys`.
pub open spec fn key_index(keys: Seq<FsPath>, k: Comps) -> int {
    choose|i: int| 0 <= i < keys.len() && (#[trigger] keys[i])@ == k
}

/// In a list of pairwise different paths, a path's position is where it stands.
proof fn lemma_key_index(keys: Seq<FsPath>, i: int)
    requires
        vec_distinct(keys),
        0 <= i < keys.len(),
    ensures
        key_index(keys, keys[i]@) == i,
{
    let k = keys[i]@;
    assert(vec_has(keys, k));
    let j = key_index(keys, k);
    assert(0 <= j < keys.len() && keys[j]@ == k);
}

/// The map from the paths of `keys` to the paths of `vals` at the same positions.
pub open spec fn assoc_map(keys: Seq<FsPath>, vals: Seq<FsPath>) -> Map<Comps, Comps> {
    Map::new(|k: Comps| vec_has(keys, k), |k: Comps| vals[key_index(keys, k)]@)
}

/// For each path of `keys`, the texts that it and the path of `vals` at the same position
/// are shown by.
pub open spec fn shown_map(keys: Seq<FsPath>, vals: Seq<FsPath>) -> Map<Comps, (Seq<char>, Seq<char>)> {
    Map::new(
        |k: Comps| vec_has(keys, k),
        |k: Comps| (keys[key_index(keys, k)].display_text(), vals[key_index(keys, k)].display_text()),
    )
}

/// A finite map from paths to paths.
#[derive(Debug)]
pub struct PathMap {
    keys: Vec<FsPath>,
    vals: Vec<FsPath>,
}

impl View for PathMap {
    type V = Map<Comps, Comps>;

    closed spec fn view(&self) -> Map<Comps, Comps> {
        assoc_map(self.keys@, self.vals@)
    }
}

impl PathMap {
    /// For each mapped path, the text it is shown by and the text its source is shown by.
    /// A path mapped again keeps the text it was first shown by.
    pub closed spec fn shown(self) -> Map<Comps, (Seq<char>, Seq<char>)> {
        shown_map(self.keys@, self.vals@)
    }

    #[verifier::type_invariant]
    closed spec fn inv(self) -> bool {
        &&& self.keys@.len() == self.vals@.len()
        &&& vec_distinct(self.keys@)
    }

    /// The empty map.
    pub fn new() -> (r: PathMap)
        ensures
            r@ == Map::<Comps, Comps>::empty(),
            r.shown() == Map::<Comps, (Seq<char>, Seq<char>)>::empty(),
    {
        let r = PathMap { keys: Vec::new(), vals: Vec::new() };
        assert(r@ =~= Map::<Comps, Comps>::empty());
        assert(r.shown() =~= Map::<Comps, (Seq<char>, Seq<char>)>::empty());
        r
    }

    /// The path that `key` maps to.
    pub fn get(&self, key: &FsPath) -> (r: Option<&FsPath>)
        ensures
            match r {
                Some(v) => self@.contains_key(key@) && self@[key@] == v@,
                None => !self@.contains_key(key@),
            },
    {
        proof {
            use_type_invariant(self);
        }
        match find_path(&self.keys, key) {
            Some(i) => {
                proof {
                    lemma_key_index(self.keys@, i as int);
                }
                Some(&self.vals[i])
            },
            None => None,
        }
    }

    /// Whether `key` is mapped.
    pub fn contains_key(&self, key: &FsPath) -> (r: bool)
        ensures
            r == self@.contains_key(key@),
    {
        find_path(&self.keys, key).is_some()
    }

    /// Maps `key` to `val`, replacing what `key` mapped to.
    pub fn insert(&mut self, key: FsPath, val: FsPath)
        ensures
            final(self)@ == old(self)@.insert(key@, val@),
            final(self).shown() == old(self).shown().insert(
                key@,
                (
                    if old(self)@.contains_key(key@) {
                        old(self).shown()[key@].0
                    } else {
                        key.display_text()
                    },
                    val.display_text(),
                ),
            ),
    {
        proof {
            use_type_invariant(&*self);
        }
        let ghost old_keys = self.keys@;
        let ghost old_vals = self.vals@;
        let ghost kv = key@;
        let ghost vv = val@;
        let ghost kt = key.display_text();
        let ghost vt = val.display_text();
        let ghost old_shown = shown_map(self.keys@, self.vals@);
        let mut keys = copy_paths(&self.keys);
        let mut vals = copy_paths(&self.vals);
        let ghost n = old_keys.len();
        proof {
            assert(vec_distinct(keys@)) by {
                assert forall|a: int, b: int| 0 <= a < keys@.len() && 0 <= b < keys@.len() && a != b implies (#[trigger] keys@[a])@ != (#[trigger] keys@[b])@ by {
                    assert(keys@[a]@ == old_keys[a]@ && keys@[b]@ == old_keys[b]@);
                }
            }
        }
        match find_path(&keys, &key) {
            Some(i) => {
                vals.set(i, val);
                proof {
                    assert(assoc_map(keys@, vals@) =~= assoc_map(old_keys, old_vals).insert(kv, vv)) by {
                        assert forall|k: Comps| assoc_map(keys@, vals@).contains_key(k) == assoc_map(old_keys, old_vals).insert(kv, vv).contains_key(k) by {
                            if vec_has(keys@, k) {
                                let j = choose|j: int| 0 <= j < keys@.len() && (#[trigger] keys@[j])@ == k;
                                assert(old_keys[j]@ == k);
                            }
                            if vec_has(old_keys, k) {
                                let j = choose|j: int| 0 <= j < old_keys.len() && (#[trigger] old_keys[j])@ == k;
                                assert(keys@[j]@ == k);
                            }
                        }
                        assert forall|k: Comps| #[trigger] assoc_map(keys@, vals@).contains_key(k) implies
                            assoc_map(keys@, vals@)[k] == assoc_map(old_keys, old_vals).insert(kv, vv)[k] by {
                            let j = key_index(keys@, k);
                            lemma_key_index(keys@, j);
                            assert(old_keys[j]@ == k);
                            lemma_key_index(old_keys, j);
                            if j != i {
                                assert(vals@[j]@ == old_vals[j]@);
                            }
                        }
                    }
                    assert(vec_has(old_keys, kv)) by {
                        assert(old_keys[i as int]@ == kv);
                    }
                    assert(assoc_map(old_keys, old_vals).contains_key(kv));
                    let new_shown = old_shown.insert(kv, (old_shown[kv].0, vt));
                    assert(shown_map(keys@, vals@) =~= new_shown) by {
                        assert forall|k: Comps| shown_map(keys@, vals@).contains_key(k) == new_shown.contains_key(k) by {
                            if vec_has(keys@, k) {
                                let j = choose|j: int| 0 <= j < keys@.len() && (#[trigger] keys@[j])@ == k;
                                assert(old_keys[j]@ == k);
                            }
                            if vec_has(old_keys, k) {
                                let j = choose|j: int| 0 <= j < old_keys.len() && (#[trigger] old_keys[j])@ == k;
                                assert(keys@[j]@ == k);
                            }
                        }
                        assert forall|k: Comps| #[trigger] shown_map(keys@, vals@).contains_key(k) implies
                            shown_map(keys@, vals@)[k] == new_shown[k] by {
                            let j = key_index(keys@, k);
                            lemma_key_index(keys@, j);
                            assert(old_keys[j]@ == k);
                            lemma_key_index(old_keys, j);
                            assert(keys@[j].display_text() == old_keys[j].display_text());
                            if j != i {
                                assert(vals@[j].display_text() == old_vals[j].display_text());
                                assert(k != kv) by {
                                    lemma_key_index(old_keys, i as int);
                                }
                            } else {
                                assert(vals@[j] == val);
                            }
                        }
                    }
                }
            },
            None => {
                keys.push(key);
                vals.push(val);
                proof {
                    assert(vec_distinct(keys@)) by {
                        assert forall|a: int, b: int| 0 <= a < keys@.len() && 0 <= b < keys@.len() && a != b implies (#[trigger] keys@[a])@ != (#[trigger] keys@[b])@ by {
                            if a < n && b < n {
                                assert(keys@[a]@ == old_keys[a]@ && keys@[b]@ == old_keys[b]@);
                            } else if a < n {
                                assert(keys@[a]@ == old_keys[a]@);
                                assert(vec_has(old_keys, old_keys[a]@));
                            } else if b < n {
                                assert(keys@[b]@ == old_keys[b]@);
                                assert(vec_has(old_keys, old_keys[b]@));
                            }
                        }
                    }
                    assert(assoc_map(keys@, vals@) =~= assoc_map(old_keys, old_vals).insert(kv, vv)) by {
                        assert forall|k: Comps| assoc_map(keys@, vals@).contains_key(k) == assoc_map(old_keys, old_vals).insert(kv, vv).contains_key(k) by {
                            if vec_has(keys@, k) {
                                let j = choose|j: int| 0 <= j < keys@.len() && (#[trigger] keys@[j])@ == k;
                                if j < n {
                                    assert(old_keys[j]@ == keys@[j]@);
                                }
                            }
                            if vec_has(old_keys, k) {
                                let j = choose|j: int| 0 <= j < old_keys.len() && (#[trigger] old_keys[j])@ == k;
                                assert(keys@[j]@ == old_keys[j]@);
                            }
                            if k == kv {
                                assert(keys@[n as int]@ == kv);
                            }
                        }
                        assert forall|k: Comps| #[trigger] assoc_map(keys@, vals@).contains_key(k) implies
                            assoc_map(keys@, vals@)[k] == assoc_map(old_keys, old_vals).insert(kv, vv)[k] by {
                            let j = key_index(keys@, k);
                            lemma_key_index(keys@, j);
                            if j < n {
                                assert(keys@[j]@ == old_keys[j]@);
                                lemma_key_index(old_keys, j);
                                assert(vals@[j]@ == old_vals[j]@);
                                assert(vec_has(old_keys, k));
                            }
                        }
                    }
                    assert(!assoc_map(old_keys, old_vals).contains_key(kv)) by {
                        if vec_has(old_keys, kv) {
                            let j = choose|j: int| 0 <= j < old_keys.len() && (#[trigger] old_keys[j])@ == kv;
                            assert(keys@[j]@ == old_keys[j]@);
                        }
                    }
                    let new_shown = old_shown.insert(kv, (kt, vt));
                    assert(shown_map(keys@, vals@) =~= new_shown) by {
                        assert forall|k: Comps| shown_map(keys@, vals@).contains_key(k) == new_shown.contains_key(k) by {
                            if vec_has(keys@, k) {
                                let j = choose|j: int| 0 <= j < keys@.len() && (#[trigger] keys@[j])@ == k;
                                if j < n {
                                    assert(old_keys[j]@ == keys@[j]@);
                                }
                            }
                            if vec_has(old_keys, k) {
                                let j = choose|j: int| 0 <= j < old_keys.len() && (#[trigger] old_keys[j])@ == k;
                                assert(keys@[j]@ == old_keys[j]@);
                            }
                            if k == kv {
                                assert(keys@[n as int]@ == kv);
                            }
                        }
                        assert forall|k: Comps| #[trigger] shown_map(keys@, vals@).contains_key(k) implies
                            shown_map(keys@, vals@)[k] == new_shown[k] by {
                            let j = key_index(keys@, k);
                            lemma_key_index(keys@, j);
                            if j < n {
                                assert(keys@[j]@ == old_keys[j]@);
                                lemma_key_index(old_keys, j);
                                assert(keys@[j].display_text() == old_keys[j].display_text());
                                assert(vals@[j].display_text() == old_vals[j].display_text());
                                assert(vec_has(old_keys, k));
                            } else {
                                assert(keys@[j] == key);
                                assert(vals@[j] == val);
                            }
                        }
                    }
                }
            },
        }
        *self = PathMap { keys, vals };
    }

    /// The number of mapped paths.
    pub fn len(&self) -> (n: usize)
        ensures
            self@.dom().finite(),
            n == self@.dom().len(),
    {
        proof {
            use_type_invariant(self);
            lemma_distinct_set_len(self.keys@);
            assert(self@.dom() =~= vec_set(self.keys@));
        }
        self.keys.len()
    }

    /// Whether nothing is mapped.
    pub fn is_empty(&self) -> (r: bool)
        ensures
            r == (self@ == Map::<Comps, Comps>::empty()),
    {
        if self.keys.len() == 0 {
            assert(self@ =~= Map::<Comps, Comps>::empty());
            true
        } else {
            assert(self@.contains_key(self.keys@[0]@));
            false
        }
    }

    /// The mapped pairs, each key once.
    pub fn to_entries(&self) -> (r: (Vec<FsPath>, Vec<FsPath>))
        ensures
            r.0@.len() == r.1@.len(),
            vec_distinct(r.0@),
            assoc_map(r.0@, r.1@) == self@,
            forall|i: int| 0 <= i < r.0@.len() ==> self@.contains_key((#[trigger] r.0@[i])@) && self@[r.0@[i]@] == r.1@[i]@,
            forall|i: int| 0 <= i < r.0@.len() ==> self.shown()[(#[trigger] r.0@[i])@] == (r.0@[i].display_text(), r.1@[i].display_text()),
    {
        proof {
            use_type_invariant(self);
        }
        let ks = copy_paths(&self.keys);
        let vs = copy_paths(&self.vals);
        proof {
            assert forall|k: Comps| vec_has(ks@, k) == vec_has(self.keys@, k) by {
                if vec_has(ks@, k) {
                    let i = choose|i: int| 0 <= i < ks@.len() && (#[trigger] ks@[i])@ == k;
                    assert(self.keys@[i]@ == k);
                }
                if vec_has(self.keys@, k) {
                    let i = choose|i: int| 0 <= i < self.keys@.len() && (#[trigger] self.keys@[i])@ == k;
                    assert(ks@[i]@ == k);
                }
            }
            assert(vec_distinct(ks@)) by {
                assert forall|a: int, b: int| 0 <= a < ks@.len() && 0 <= b < ks@.len() && a != b implies (#[trigger] ks@[a])@ != (#[trigger] ks@[b])@ by {
                    assert(ks@[a]@ == self.keys@[a]@ && ks@[b]@ == self.keys@[b]@);
                }
            }
            assert forall|i: int| 0 <= i < ks@.len() implies self@.contains_key((#[trigger] ks@[i])@) && self@[ks@[i]@] == vs@[i]@ by {
                assert(self.keys@[i]@ == ks@[i]@);
                lemma_key_index(self.keys@, i);
            }
            assert forall|i: int| 0 <= i < ks@.len() implies self.shown()[(#[trigger] ks@[i])@] == (ks@[i].display_text(), vs@[i].display_text()) by {
                assert(self.keys@[i]@ == ks@[i]@);
                lemma_key_index(self.keys@, i);
                assert(vec_has(self.keys@, ks@[i]@));
            }
            assert(assoc_map(ks@, vs@) =~= self@) by {
                assert forall|k: Comps| #[trigger] assoc_map(ks@, vs@).contains_key(k) implies assoc_map(ks@, vs@)[k] == self@[k] by {
                    let j = key_index(ks@, k);
                    lemma_key_index(ks@, j);
                    assert(self.keys@[j]@ == k);
                    lemma_key_index(self.keys@, j);
                }
            }
        }
        (ks, vs)
    }

    /// Maps every key of `other` to what `other` maps it to, keeping the other keys.
    pub fn extend(&mut self, other: &PathMap)
        ensures
            final(self)@ == old(self)@.union_prefer_right(other@),
    {
        let (ks, vs) = other.to_entries();
        let n = ks.len();
        let ghost start = self@;
        for i in 0..n
            invariant
                n == ks@.len(),
                ks@.len() == vs@.len(),
                vec_distinct(ks@),
                forall|j: int| 0 <= j < ks@.len() ==> other@.contains_key((#[trigger] ks@[j])@) && other@[ks@[j]@] == vs@[j]@,
                assoc_map(ks@, vs@) == other@,
                start == old(self)@,
                self@ == start.union_prefer_right(assoc_map(ks@.take(i as int), vs@.take(i as int))),
        {
            self.insert(ks[i].duplicate(), vs[i].duplicate());
            proof {
                let a = assoc_map(ks@.take(i as int), vs@.take(i as int));
                let b = assoc_map(ks@.take(i + 1), vs@.take(i + 1));
                assert(vec_distinct(ks@.take(i + 1))) by {
                    assert forall|x: int, y: int| 0 <= x < i + 1 && 0 <= y < i + 1 && x != y implies (#[trigger] ks@.take(i + 1)[x])@ != (#[trigger] ks@.take(i + 1)[y])@ by {
                        assert(ks@.take(i + 1)[x] == ks@[x] && ks@.take(i + 1)[y] == ks@[y]);
                    }
                }
                assert(vec_distinct(ks@.take(i as int))) by {
                    assert forall|x: int, y: int| 0 <= x < i && 0 <= y < i && x != y implies (#[trigger] ks@.take(i as int)[x])@ != (#[trigger] ks@.take(i as int)[y])@ by {
                        assert(ks@.take(i as int)[x] == ks@[x] && ks@.take(i as int)[y] == ks@[y]);
                    }
                }
                assert(b =~= a.insert(ks@[i as int]@, vs@[i as int]@)) by {
                    assert forall|k: Comps| b.contains_key(k) == a.insert(ks@[i as int]@, vs@[i as int]@).contains_key(k) by {
                        if vec_has(ks@.take(i + 1), k) {
                            let j = choose|j: int| 0 <= j < i + 1 && (#[trigger] ks@.take(i + 1)[j])@ == k;
                            if j < i {
                                assert(ks@.take(i as int)[j] == ks@[j]);
                            }
                        }
                        if vec_has(ks@.take(i as int), k) {
                            let j = choose|j: int| 0 <= j < i && (#[trigger] ks@.take(i as int)[j])@ == k;
                            assert(ks@.take(i + 1)[j] == ks@[j]);
                        }
                        if k == ks@[i as int]@ {
                            assert(ks@.take(i + 1)[i as int] == ks@[i as int]);
                        }
                    }
                    assert forall|k: Comps| #[trigger] b.contains_key(k) implies b[k] == a.insert(ks@[i as int]@, vs@[i as int]@)[k] by {
                        let j = key_index(ks@.take(i + 1), k);
                        lemma_key_index(ks@.take(i + 1), j);
                        if j < i {
                            assert(ks@.take(i as int)[j] == ks@[j]);
                            lemma_key_index(ks@.take(i as int), j);
                            assert(k != ks@[i as int]@);
                        }
                    }
                }
                assert(self@ =~= start.union_prefer_right(b));
            }
        }
        proof {
            assert(ks@.take(n as int) =~= ks@);
            assert(vs@.take(n as int) =~= vs@);
        }
    }
}

/// A map built from pairwise different keys has as many keys as the list.
pub(crate) proof fn lemma_assoc_len(keys: Seq<FsPath>, vals: Seq<FsPath>)
    requires
        vec_distinct(keys),
        keys.len() == vals.len(),
    ensures
        assoc_map(keys, vals).dom().finite(),
        assoc_map(keys, vals).dom().len() == keys.len(),
{
    lemma_distinct_set_len(keys);
    assert(assoc_map(keys, vals).dom() =~= vec_set(keys));
}

/// A one-to-one map of the positions below `n` into themselves reaches each of them.
pub(crate) proof fn lemma_injective_onto(src: Seq<int>, n: int, j: int)
    requires
        src.len() == n,
        forall|t: int| 0 <= t < n ==> 0 <= #[trigger] src[t] < n,
        forall|t: int, u: int| 0 <= t < n && 0 <= u < n && t != u ==> #[trigger] src[t] != #[trigger] src[u],
        0 <= j < n,
    ensures
        exists|t: int| 0 <= t < n && src[t] == j,
{
    assert(src.no_duplicates()) by {
        assert forall|t: int, u: int| 0 <= t < src.len() && 0 <= u < src.len() && t != u implies src[t] != src[u] by {
            assert(src[t] != src[u]);
        }
    }
    src.unique_seq_to_set();
    vstd::set_lib::lemma_int_range(0, n);
    let range = vstd::set_lib::set_int_range(0, n);
    assert(src.to_set().subset_of(range)) by {
        assert forall|x: int| #[trigger] src.to_set().contains(x) implies range.contains(x) by {
            assert(src.contains(x));
            let t = choose|t: int| 0 <= t < src.len() && src[t] == x;
            assert(0 <= src[t] < n);
        }
    }
    vstd::seq_lib::seq_to_set_is_finite(src);
    vstd::set_lib::lemma_subset_equality(src.to_set(), range);
    assert(range.contains(j));
    assert(src.to_set().contains(j));
    assert(src.contains(j));
}

/// The set of the paths of a list of pairwise different paths has as many elements as the list.
proof fn lemma_distinct_set_len(v: Seq<FsPath>)
    requires
        vec_distinct(v),
    ensures
        vec_set(v).finite(),
        vec_set(v).len() == v.len(),
    decreases v.len(),
{
    if v.len() == 0 {
        assert(vec_set(v) =~= Set::<Comps>::empty());
    } else {
        let init = v.drop_last();
        assert(vec_distinct(init)) by {
            assert forall|i: int, j: int| 0 <= i < init.len() && 0 <= j < init.len() && i != j implies (#[trigger] init[i])@ != (#[trigger] init[j])@ by {
                assert(init[i] == v[i] && init[j] == v[j]);
            }
        }
        lemma_distinct_set_len(init);
        let last = v[v.len() - 1]@;
        assert(vec_set(v) =~= vec_set(init).insert(last)) by {
            assert forall|q: Comps| vec_set(v).contains(q) == vec_set(init).insert(last).contains(q) by {
                if vec_has(v, q) {
                    let i = choose|i: int| 0 <= i < v.len() && (#[trigger] v[i])@ == q;
                    if i < v.len() - 1 {
                        assert(init[i] == v[i]);
                    }
                }
                if vec_has(init, q) {
                    let i = choose|i: int| 0 <= i < init.len() && (#[trigger] init[i])@ == q;
                    assert(v[i] == init[i]);
                }
            }
        }
        assert(!vec_set(init).contains(last)) by {
            if vec_has(init, last) {
                let i = choose|i: int| 0 <= i < init.len() && (#[trigger] init[i])@ == last;
                assert(v[i] == init[i]);
            }
        }
    }
}

} // verus!
