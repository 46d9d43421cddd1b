//! Choosing the directories to watch for the hotlinked files.
use vstd::prelude::*;
use crate::collections::{vec_has, vec_set};
use crate::order::{
    char_order, comp_lt, comp_order, comp_rank, lemma_path_between, lemma_path_irrefl, lemma_path_prefix,
    lemma_path_total, lemma_path_trans, lex_lt, path_lt, text_lt,
};
use crate::path::{Comps, FsPath, has_prefix, is_single_char, lemma_prefix_refl, parent_of};

verus! {

/// With equal first elements, the order is decided by the rest.
proof fn lemma_lex_step<T>(a: Seq<T>, b: Seq<T>, i: int, lt: spec_fn(T, T) -> bool)
    requires
        0 <= i < a.len(),
        i < b.len(),
        a[i] == b[i],
    ensures
        lex_lt(a.skip(i), b.skip(i), lt) == lex_lt(a.skip(i + 1), b.skip(i + 1), lt),
{
    assert(a.skip(i).drop_first() =~= a.skip(i + 1));
    assert(b.skip(i).drop_first() =~= b.skip(i + 1));
    assert(a.skip(i)[0] == b.skip(i)[0]);
}

/// Whether text `a` comes before text `b`.
pub fn text_less(a: &str, b: &str) -> (r: bool)
    ensures
        r == text_lt(a@, b@),
{
    let n = a.unicode_len();
    let m = b.unicode_len();
    let ghost lt = char_order();
    proof {
        assert(a@.skip(0) =~= a@);
        assert(b@.skip(0) =~= b@);
    }
    let mut i: usize = 0;
    while i < n && i < m
        invariant
            n == a@.len(),
            m == b@.len(),
            i <= n,
            i <= m,
            lt == char_order(),
            lex_lt(a@, b@, lt) == lex_lt(a@.skip(i as int), b@.skip(i as int), lt),
        decreases n - i,
    {
        let x = a.get_char(i);
        let y = b.get_char(i);
        if x != y {
            proof {
                assert(a@.skip(i as int)[0] == x);
                assert(b@.skip(i as int)[0] == y);
                assert(a@.skip(i as int).len() > 0 && b@.skip(i as int).len() > 0);
                assert(lex_lt(a@.skip(i as int), b@.skip(i as int), lt) == lt(x, y));
                assert(text_lt(a@, b@) == lex_lt(a@, b@, lt));
            }
            return (x as u32) < (y as u32);
        }
        proof {
            lemma_lex_step(a@, b@, i as int, lt);
        }
        i = i + 1;
    }
    proof {
        assert(a@.skip(i as int).len() == n - i);
        assert(b@.skip(i as int).len() == m - i);
    }
    i == n && i < m
}

/// Whether two texts are equal.
pub fn text_eq(a: &str, b: &str) -> (r: bool)
    ensures
        r == (a@ == b@),
{
    let n = a.unicode_len();
    if n != b.unicode_len() {
        return false;
    }
    for i in 0..n
        invariant
            n == a@.len(),
            n == b@.len(),
            forall|j: int| 0 <= j < i ==> a@[j] == b@[j],
    {
        if a.get_char(i) != b.get_char(i) {
            return false;
        }
    }
    assert(a@ =~= b@);
    true
}

/// The kind of a component, as `comp_rank` gives it.
fn rank(c: &str) -> (r: u8)
    ensures
        r == comp_rank(c@),
{
    if is_single_char(c, '/') {
        0
    } else if is_single_char(c, '.') {
        1
    } else if c.unicode_len() == 2 && c.get_char(0) == '.' && c.get_char(1) == '.' {
        assert(c@ =~= seq!['.', '.']);
        2
    } else {
        assert(c@ != seq!['.', '.']) by {
            if c@ == seq!['.', '.'] {
                assert(c@.len() == 2 && c@[0] == '.' && c@[1] == '.');
            }
        }
        3
    }
}

/// Whether component `a` comes before component `b`.
fn comp_less(a: &str, b: &str) -> (r: bool)
    ensures
        r == comp_lt(a@, b@),
{
    let ra = rank(a);
    let rb = rank(b);
    if ra != rb {
        ra < rb
    } else if ra == 3 {
        text_less(a, b)
    } else {
        false
    }
}

/// Whether path `a` comes before path `b`.
pub fn path_less(a: &FsPath, b: &FsPath) -> (r: bool)
    ensures
        r == path_lt(a@, b@),
{
    let n = a.len();
    let m = b.len();
    let ghost lt = comp_order();
    proof {
        assert(a@.skip(0) =~= a@);
        assert(b@.skip(0) =~= b@);
    }
    let mut i: usize = 0;
    while i < n && i < m
        invariant
            n == a@.len(),
            m == b@.len(),
            i <= n,
            i <= m,
            lt == comp_order(),
            lex_lt(a@, b@, lt) == lex_lt(a@.skip(i as int), b@.skip(i as int), lt),
        decreases n - i,
    {
        let x = a.component(i);
        let y = b.component(i);
        if !text_eq(x, y) {
            proof {
                assert(a@.skip(i as int)[0] == x@);
                assert(b@.skip(i as int)[0] == y@);
                assert(a@.skip(i as int).len() > 0 && b@.skip(i as int).len() > 0);
                assert(lex_lt(a@.skip(i as int), b@.skip(i as int), lt) == lt(x@, y@));
                assert(path_lt(a@, b@) == lex_lt(a@, b@, lt));
            }
            return comp_less(x, y);
        }
        proof {
            lemma_lex_step(a@, b@, i as int, lt);
        }
        i = i + 1;
    }
    proof {
        assert(a@.skip(i as int).len() == n - i);
        assert(b@.skip(i as int).len() == m - i);
    }
    i == n && i < m
}

/// No later path comes before an earlier one.
pub open spec fn sorted_paths(s: Seq<FsPath>) -> bool {
    forall|i: int, j: int| 0 <= i < j < s.len() ==> !path_lt((#[trigger] s[j])@, (#[trigger] s[i])@)
}

/// Copies of the paths of `v`, in order.
pub fn sort_paths(v: &Vec<FsPath>) -> (r: Vec<FsPath>)
    ensures
        sorted_paths(r@),
        r@.len() == v@.len(),
        forall|p: Comps| vec_has(r@, p) <==> vec_has(v@, p),
{
    let mut r: Vec<FsPath> = Vec::new();
    let n = v.len();
    for i in 0..n
        invariant
            n == v@.len(),
            r@.len() == i,
            sorted_paths(r@),
            forall|p: Comps| vec_has(r@, p) <==> vec_has(v@.take(i as int), p),
    {
        let x = &v[i];
        let mut pos: usize = 0;
        while pos < r.len() && !path_less(x, &r[pos])
            invariant
                pos <= r@.len(),
                forall|j: int| 0 <= j < pos ==> !path_lt(x@, (#[trigger] r@[j])@),
            decreases r@.len() - pos,
        {
            pos = pos + 1;
        }
        let ghost old_r = r@;
        r.insert(pos, x.duplicate());
        proof {
            assert(r@ == old_r.insert(pos as int, r@[pos as int]));
            assert forall|a: int, b: int| 0 <= a < b < r@.len() implies !path_lt((#[trigger] r@[b])@, (#[trigger] r@[a])@) by {
                if b < pos {
                    assert(r@[a] == old_r[a] && r@[b] == old_r[b]);
                } else if a > pos {
                    assert(r@[a] == old_r[a - 1] && r@[b] == old_r[b - 1]);
                } else if b == pos {
                    assert(r@[a] == old_r[a]);
                } else if a == pos {
                    assert(r@[b] == old_r[b - 1]);
                    assert(path_lt(x@, old_r[pos as int]@));
                    if path_lt(old_r[b - 1]@, x@) {
                        lemma_path_trans(old_r[b - 1]@, x@, old_r[pos as int]@);
                        if b - 1 > pos {
                            assert(!path_lt(old_r[b - 1]@, old_r[pos as int]@));
                        } else {
                            lemma_path_irrefl(old_r[pos as int]@);
                        }
                    }
                } else {
                    assert(r@[a] == old_r[a] && r@[b] == old_r[b - 1]);
                }
            }
            assert forall|p: Comps| vec_has(r@, p) <==> vec_has(v@.take(i + 1), p) by {
                if vec_has(r@, p) {
                    let j = choose|j: int| 0 <= j < r@.len() && (#[trigger] r@[j])@ == p;
                    if j == pos {
                        assert(v@.take(i + 1)[i as int] == v@[i as int]);
                    } else {
                        let oj = if j < pos { j } else { j - 1 };
                        assert(r@[j] == old_r[oj]);
                        assert(vec_has(old_r, p));
                        let q = choose|q: int| 0 <= q < i && (#[trigger] v@.take(i as int)[q])@ == p;
                        assert(v@.take(i + 1)[q] == v@.take(i as int)[q]);
                    }
                }
                if vec_has(v@.take(i + 1), p) {
                    let q = choose|q: int| 0 <= q < i + 1 && (#[trigger] v@.take(i + 1)[q])@ == p;
                    if q == i {
                        assert(r@[pos as int]@ == p);
                    } else {
                        assert(v@.take(i as int)[q] == v@.take(i + 1)[q]);
                        assert(vec_has(old_r, p));
                        let j = choose|j: int| 0 <= j < old_r.len() && (#[trigger] old_r[j])@ == p;
                        let nj = if j < pos { j } else { j + 1 };
                        assert(r@[nj] == old_r[j]);
                    }
                }
            }
        }
    }
    proof {
        assert(v@.take(n as int) =~= v@);
    }
    r
}

/// The directories the files lie in.
pub open spec fn parents_of(files: Seq<FsPath>) -> Set<Comps> {
    Set::new(|p: Comps| exists|i: int| 0 <= i < files.len() && parent_of((#[trigger] files[i])@) == Some(p))
}

/// The directories to watch so that every file's directory is watched: the directories
/// of the files that lie in no other of them, in path order, each once.
pub fn get_directories_to_watch(files: &Vec<FsPath>) -> (r: Vec<FsPath>)
    requires
        forall|i: int| 0 <= i < files@.len() ==> parent_of((#[trigger] files@[i])@) is Some,
    ensures
        forall|a: int, b: int| 0 <= a < b < r@.len() ==> path_lt((#[trigger] r@[a])@, (#[trigger] r@[b])@),
        forall|t: int| 0 <= t < r@.len() ==> parents_of(files@).contains((#[trigger] r@[t])@),
        forall|t: int, p: Comps| 0 <= t < r@.len() && parents_of(files@).contains(p) && #[trigger] has_prefix(r@[t]@, p) ==> p == r@[t]@,
        forall|p: Comps| parents_of(files@).contains(p) ==> exists|t: int| 0 <= t < r@.len() && has_prefix(p, (#[trigger] r@[t])@),
        watched_dirs(files@, r@),
{
    let mut dirs: Vec<FsPath> = Vec::new();
    let n = files.len();
    for i in 0..n
        invariant
            n == files@.len(),
            forall|i: int| 0 <= i < files@.len() ==> parent_of((#[trigger] files@[i])@) is Some,
            dirs@.len() == i,
            forall|j: int| 0 <= j < i ==> parent_of((#[trigger] files@[j])@) == Some((#[trigger] dirs@[j])@),
    {
        match files[i].parent() {
            Some(d) => {
                dirs.push(d);
            },
            None => {
                assert(parent_of(files@[i as int]@) is Some);
                assert(false);
            },
        }
    }
    proof {
        assert forall|p: Comps| vec_has(dirs@, p) <==> parents_of(files@).contains(p) by {
            if vec_has(dirs@, p) {
                let j = choose|j: int| 0 <= j < dirs@.len() && (#[trigger] dirs@[j])@ == p;
                assert(parent_of(files@[j]@) == Some(p));
            }
            if parents_of(files@).contains(p) {
                let j = choose|j: int| 0 <= j < files@.len() && parent_of((#[trigger] files@[j])@) == Some(p);
                assert(dirs@[j]@ == p);
            }
        }
    }
    let s = sort_paths(&dirs);
    let mut res: Vec<FsPath> = Vec::new();
    let ghost mut rsrc: Seq<int> = Seq::empty();
    let ghost mut cov: Seq<int> = Seq::empty();
    let m = s.len();
    for i in 0..m
        invariant
            m == s@.len(),
            sorted_paths(s@),
            res@.len() == rsrc.len(),
            forall|t: int| 0 <= t < rsrc.len() ==> 0 <= #[trigger] rsrc[t] < i,
            forall|t: int| 0 <= t < rsrc.len() ==> (#[trigger] res@[t])@ == s@[rsrc[t]]@,
            forall|a: int, b: int| 0 <= a < b < res@.len() ==> path_lt((#[trigger] res@[a])@, (#[trigger] res@[b])@),
            forall|a: int, b: int| 0 <= a < res@.len() && 0 <= b < res@.len() && a != b ==> !has_prefix((#[trigger] res@[a])@, (#[trigger] res@[b])@),
            cov.len() == i,
            forall|x: int| 0 <= x < i ==> 0 <= #[trigger] cov[x] < res@.len() && has_prefix(s@[x]@, res@[cov[x]]@),
            forall|t: int, x: int| 0 <= t < res@.len() && 0 <= x < i && has_prefix((#[trigger] res@[t])@, (#[trigger] s@[x])@) ==> s@[x]@ == res@[t]@,
    {
        let d = &s[i];
        let ghost dv = d@;
        proof {
            lemma_prefix_refl(dv);
            assert forall|t: int| 0 <= t < res@.len() implies !path_lt(dv, (#[trigger] res@[t])@) by {
                assert(s@[rsrc[t]]@ == res@[t]@);
                assert(rsrc[t] < i);
                assert(!path_lt(s@[i as int]@, s@[rsrc[t]]@));
            }
        }
        let skip = res.len() > 0 && d.starts_with(&res[res.len() - 1]);
        if skip {
            proof {
                let l = res@.len() - 1;
                let old_cov = cov;
                cov = cov.push(l);
                assert forall|x: int| 0 <= x < i + 1 implies 0 <= #[trigger] cov[x] < res@.len() && has_prefix(s@[x]@, res@[cov[x]]@) by {
                    if x < i {
                        assert(cov[x] == old_cov[x]);
                    }
                }
                assert forall|t: int, x: int| 0 <= t < res@.len() && 0 <= x < i + 1 && has_prefix((#[trigger] res@[t])@, (#[trigger] s@[x])@) implies s@[x]@ == res@[t]@ by {
                    if x == i && s@[x]@ != res@[t]@ {
                        lemma_path_prefix(s@[x]@, res@[t]@);
                    }
                }
            }
        } else {
            let ghost old_res = res@;
            proof {
                // no watched directory is a prefix of `d`
                assert forall|t: int| 0 <= t < res@.len() implies !has_prefix(dv, (#[trigger] res@[t])@) by {
                    let l = res@.len() - 1;
                    if has_prefix(dv, res@[t]@) {
                        if t < l {
                            assert(path_lt(res@[t]@, res@[l]@));
                            lemma_path_irrefl(res@[t]@);
                            if path_lt(res@[l]@, res@[t]@) {
                                lemma_path_trans(res@[t]@, res@[l]@, res@[t]@);
                            }
                        }
                        lemma_path_between(res@[t]@, res@[l]@, dv);
                    }
                }
                // `d` is a prefix of no watched directory
                assert forall|t: int| 0 <= t < res@.len() implies !has_prefix((#[trigger] res@[t])@, dv) by {
                    if has_prefix(res@[t]@, dv) {
                        if res@[t]@ == dv {
                            lemma_prefix_refl(dv);
                        } else {
                            lemma_path_prefix(dv, res@[t]@);
                        }
                    }
                }
                if res@.len() > 0 {
                    let l = res@.len() - 1;
                    assert(res@[l]@ != dv) by {
                        if res@[l]@ == dv {
                            lemma_prefix_refl(dv);
                        }
                    }
                    lemma_path_total(res@[l]@, dv);
                }
            }
            res.push(d.duplicate());
            proof {
                let old_src = rsrc;
                rsrc = rsrc.push(i as int);
                let nl = res@.len() - 1;
                assert forall|t: int| 0 <= t < rsrc.len() implies (#[trigger] res@[t])@ == s@[rsrc[t]]@ by {
                    if t < old_src.len() {
                        assert(res@[t] == old_res[t]);
                        assert(rsrc[t] == old_src[t]);
                    }
                }
                assert forall|a: int, b: int| 0 <= a < b < res@.len() implies path_lt((#[trigger] res@[a])@, (#[trigger] res@[b])@) by {
                    if b == nl {
                        assert(res@[a] == old_res[a]);
                        let l = old_res.len() - 1;
                        if a < l {
                            assert(path_lt(old_res[a]@, old_res[l]@));
                            lemma_path_trans(old_res[a]@, old_res[l]@, dv);
                        }
                    } else {
                        assert(res@[a] == old_res[a] && res@[b] == old_res[b]);
                    }
                }
                assert forall|a: int, b: int| 0 <= a < res@.len() && 0 <= b < res@.len() && a != b implies !has_prefix((#[trigger] res@[a])@, (#[trigger] res@[b])@) by {
                    if a < nl && b < nl {
                        assert(res@[a] == old_res[a] && res@[b] == old_res[b]);
                    } else if a == nl {
                        assert(res@[b] == old_res[b]);
                    } else {
                        assert(res@[a] == old_res[a]);
                    }
                }
                let old_cov = cov;
                cov = cov.push(nl);
                assert forall|x: int| 0 <= x < i + 1 implies 0 <= #[trigger] cov[x] < res@.len() && has_prefix(s@[x]@, res@[cov[x]]@) by {
                    if x == i {
                        lemma_prefix_refl(dv);
                    } else {
                        assert(cov[x] == old_cov[x]);
                        assert(res@[old_cov[x]] == old_res[old_cov[x]]);
                    }
                }
                assert forall|t: int, x: int| 0 <= t < res@.len() && 0 <= x < i + 1 && has_prefix((#[trigger] res@[t])@, (#[trigger] s@[x])@) implies s@[x]@ == res@[t]@ by {
                    if t == nl {
                        if x < i {
                            let t2 = old_cov[x];
                            assert(has_prefix(s@[x]@, old_res[t2]@));
                            crate::path::lemma_prefix_trans(dv, s@[x]@, old_res[t2]@);
                            assert(!has_prefix(dv, old_res[t2]@));
                        }
                    } else {
                        assert(res@[t] == old_res[t]);
                    }
                }
            }
        }
    }
    proof {
        assert forall|t: int| 0 <= t < res@.len() implies parents_of(files@).contains((#[trigger] res@[t])@) by {
            assert(s@[rsrc[t]]@ == res@[t]@);
            assert(vec_has(s@, res@[t]@));
            assert(vec_has(dirs@, res@[t]@));
        }
        assert forall|t: int, p: Comps| 0 <= t < res@.len() && parents_of(files@).contains(p) && #[trigger] has_prefix(res@[t]@, p) implies p == res@[t]@ by {
            assert(vec_has(dirs@, p));
            assert(vec_has(s@, p));
            let x = choose|x: int| 0 <= x < s@.len() && (#[trigger] s@[x])@ == p;
            assert(has_prefix(res@[t]@, s@[x]@));
        }
        assert forall|p: Comps| parents_of(files@).contains(p) implies exists|t: int| 0 <= t < res@.len() && has_prefix(p, (#[trigger] res@[t])@) by {
            assert(vec_has(dirs@, p));
            assert(vec_has(s@, p));
            let x = choose|x: int| 0 <= x < s@.len() && (#[trigger] s@[x])@ == p;
            let t = cov[x];
            assert(has_prefix(p, res@[t]@));
        }
        reveal(watched_dirs);
    }
    res
}

/// No watched directory lies within another one.
pub proof fn lemma_watched_disjoint(files: Seq<FsPath>, watched: Seq<FsPath>, a: int, b: int)
    requires
        forall|t: int| 0 <= t < watched.len() ==> parents_of(files).contains((#[trigger] watched[t])@),
        forall|t: int, p: Comps| 0 <= t < watched.len() && parents_of(files).contains(p) && #[trigger] has_prefix(watched[t]@, p) ==> p == watched[t]@,
        forall|x: int, y: int| 0 <= x < y < watched.len() ==> path_lt((#[trigger] watched[x])@, (#[trigger] watched[y])@),
        0 <= a < watched.len(),
        0 <= b < watched.len(),
        a != b,
    ensures
        !has_prefix(watched[a]@, watched[b]@),
{
    if has_prefix(watched[a]@, watched[b]@) {
        assert(parents_of(files).contains(watched[b]@));
        assert(watched[b]@ == watched[a]@);
        lemma_path_irrefl(watched[a]@);
        if a < b {
            assert(path_lt(watched[a]@, watched[b]@));
        } else {
            assert(path_lt(watched[b]@, watched[a]@));
        }
    }
}

/// What watching `files` gives: directories in strictly increasing path order, each a
/// directory of some file and lying in no other such directory, and together holding
/// the directory of every file.
#[verifier::opaque]
pub open spec fn watched_dirs(files: Seq<FsPath>, r: Seq<FsPath>) -> bool {
    &&& forall|a: int, b: int| 0 <= a < b < r.len() ==> path_lt((#[trigger] r[a])@, (#[trigger] r[b])@)
    &&& forall|t: int| 0 <= t < r.len() ==> parents_of(files).contains((#[trigger] r[t])@)
    &&& forall|t: int, p: Comps| 0 <= t < r.len() && parents_of(files).contains(p) && #[trigger] has_prefix(r[t]@, p) ==> p == r[t]@
    &&& forall|p: Comps| parents_of(files).contains(p) ==> exists|t: int| 0 <= t < r.len() && has_prefix(p, (#[trigger] r[t])@)
}

/// Two strictly increasing sequences of paths with the same elements are equal.
proof fn lemma_sorted_unique(a: Seq<Comps>, b: Seq<Comps>)
    requires
        forall|i: int, j: int| 0 <= i < j < a.len() ==> path_lt(#[trigger] a[i], #[trigger] a[j]),
        forall|i: int, j: int| 0 <= i < j < b.len() ==> path_lt(#[trigger] b[i], #[trigger] b[j]),
        forall|x: Comps| a.contains(x) <==> b.contains(x),
    ensures
        a == b,
    decreases a.len(),
{
    if a.len() == 0 {
        if b.len() > 0 {
            assert(b.contains(b[0]));
        }
        assert(a =~= b);
    } else {
        assert(a.contains(a[0]));
        let j = choose|j: int| 0 <= j < b.len() && b[j] == a[0];
        assert(b.contains(b[0]));
        let i = choose|i: int| 0 <= i < a.len() && a[i] == b[0];
        if j > 0 {
            assert(path_lt(b[0], b[j]));
            if i > 0 {
                assert(path_lt(a[0], a[i]));
                lemma_path_trans(a[0], b[0], a[0]);
                lemma_path_irrefl(a[0]);
            } else {
                lemma_path_irrefl(a[0]);
            }
        }
        assert(b[0] == a[0]);
        let a1 = a.drop_first();
        let b1 = b.drop_first();
        assert forall|x: Comps| a1.contains(x) <==> b1.contains(x) by {
            if a1.contains(x) {
                let k = choose|k: int| 0 <= k < a1.len() && a1[k] == x;
                assert(a[k + 1] == x);
                assert(path_lt(a[0], a[k + 1]));
                assert(b.contains(x));
                let l = choose|l: int| 0 <= l < b.len() && b[l] == x;
                if l == 0 {
                    lemma_path_irrefl(x);
                }
                assert(b1[l - 1] == x);
            }
            if b1.contains(x) {
                let k = choose|k: int| 0 <= k < b1.len() && b1[k] == x;
                assert(b[k + 1] == x);
                assert(path_lt(b[0], b[k + 1]));
                assert(a.contains(x));
                let l = choose|l: int| 0 <= l < a.len() && a[l] == x;
                if l == 0 {
                    lemma_path_irrefl(x);
                }
                assert(a1[l - 1] == x);
            }
        }
        assert forall|i: int, j: int| 0 <= i < j < a1.len() implies path_lt(#[trigger] a1[i], #[trigger] a1[j]) by {
            assert(a1[i] == a[i + 1] && a1[j] == a[j + 1]);
        }
        assert forall|i: int, j: int| 0 <= i < j < b1.len() implies path_lt(#[trigger] b1[i], #[trigger] b1[j]) by {
            assert(b1[i] == b[i + 1] && b1[j] == b[j + 1]);
        }
        lemma_sorted_unique(a1, b1);
        assert(a =~= b1.insert(0, b[0]));
        assert(b =~= b1.insert(0, b[0]));
    }
}

/// Files with the same paths have the same directories.
proof fn lemma_same_parents(files1: Seq<FsPath>, files2: Seq<FsPath>)
    requires
        vec_set(files1) == vec_set(files2),
    ensures
        parents_of(files1) == parents_of(files2),
{
    assert forall|p: Comps| parents_of(files1).contains(p) implies parents_of(files2).contains(p) by {
        let i = choose|i: int| 0 <= i < files1.len() && parent_of((#[trigger] files1[i])@) == Some(p);
        assert(vec_set(files1).contains(files1[i]@));
        assert(vec_has(files2, files1[i]@));
        let j = choose|j: int| 0 <= j < files2.len() && (#[trigger] files2[j])@ == files1[i]@;
    }
    assert forall|p: Comps| parents_of(files2).contains(p) implies parents_of(files1).contains(p) by {
        let i = choose|i: int| 0 <= i < files2.len() && parent_of((#[trigger] files2[i])@) == Some(p);
        assert(vec_set(files2).contains(files2[i]@));
        assert(vec_has(files1, files2[i]@));
        let j = choose|j: int| 0 <= j < files1.len() && (#[trigger] files1[j])@ == files2[i]@;
    }
    assert(parents_of(files1) =~= parents_of(files2));
}

/// A directory watched for some files is in every list of directories watched for them.
proof fn lemma_watched_in_other(files1: Seq<FsPath>, files2: Seq<FsPath>, w1: Seq<FsPath>, w2: Seq<FsPath>, t: int)
    requires
        parents_of(files1) == parents_of(files2),
        watched_dirs(files1, w1),
        watched_dirs(files2, w2),
        0 <= t < w1.len(),
    ensures
        exists|u: int| 0 <= u < w2.len() && (#[trigger] w2[u])@ == w1[t]@,
{
    reveal(watched_dirs);
    let files = files1;
    let x = w1[t]@;
    assert(parents_of(files).contains(x));
    let u = choose|u: int| 0 <= u < w2.len() && has_prefix(x, (#[trigger] w2[u])@);
    assert(parents_of(files).contains(w2[u]@));
    assert(has_prefix(w1[t]@, w2[u]@));
}

/// The components of each path of `w`.
pub open spec fn path_views(w: Seq<FsPath>) -> Seq<Comps> {
    w.map_values(|p: FsPath| p@)
}

/// The components of watched directories come in strictly increasing order.
proof fn lemma_watched_sorted(files: Seq<FsPath>, w: Seq<FsPath>)
    requires
        watched_dirs(files, w),
    ensures
        forall|i: int, j: int| 0 <= i < j < w.len() ==> path_lt(#[trigger] path_views(w)[i], #[trigger] path_views(w)[j]),
{
    reveal(watched_dirs);
    let v = path_views(w);
    assert forall|i: int, j: int| 0 <= i < j < w.len() implies path_lt(#[trigger] v[i], #[trigger] v[j]) by {
        assert(path_lt(w[i]@, w[j]@));
    }
}

/// The directories watched depend only on which files there are, not on their order or
/// on repetitions.
pub proof fn lemma_watched_unique(files1: Seq<FsPath>, files2: Seq<FsPath>, w1: Seq<FsPath>, w2: Seq<FsPath>)
    requires
        vec_set(files1) == vec_set(files2),
        watched_dirs(files1, w1),
        watched_dirs(files2, w2),
    ensures
        path_views(w1) == path_views(w2),
{
    lemma_same_parents(files1, files2);
    let v1 = path_views(w1);
    let v2 = path_views(w2);
    assert forall|x: Comps| v1.contains(x) <==> v2.contains(x) by {
        if v1.contains(x) {
            let t = choose|t: int| 0 <= t < v1.len() && v1[t] == x;
            lemma_watched_in_other(files1, files2, w1, w2, t);
            let u = choose|u: int| 0 <= u < w2.len() && (#[trigger] w2[u])@ == w1[t]@;
            assert(v2[u] == x);
        }
        if v2.contains(x) {
            let t = choose|t: int| 0 <= t < v2.len() && v2[t] == x;
            lemma_watched_in_other(files2, files1, w2, w1, t);
            let u = choose|u: int| 0 <= u < w1.len() && (#[trigger] w1[u])@ == w2[t]@;
            assert(v1[u] == x);
        }
    }
    lemma_watched_sorted(files1, w1);
    lemma_watched_sorted(files2, w2);
    lemma_sorted_unique(v1, v2);
}

} // verus!
