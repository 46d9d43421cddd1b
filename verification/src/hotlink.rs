//! Hotlinking a configuration file: the original file is moved aside to a backup next to
//! it, named after it with `.hotlink` added, and a link to the editable source takes its
//! place. Restoring moves the backup back.
use vstd::prelude::*;
use crate::path::{
    Comps, FsPath, file_name_of, file_stem, inner_comp, is_abs, join_slash, last_dot, name_comp, path_text,
    replace_last, root_comp, strip_extension_comps,
};

verus! {

/// The text added to a file name to name its backup.
pub open spec fn hotlink_suffix() -> Seq<char> {
    seq!['.', 'h', 'o', 't', 'l', 'i', 'n', 'k']
}

/// The backup of a file: its name with `.hotlink` added, in the same directory.
pub open spec fn backup_comps(p: Comps) -> Comps {
    p.drop_last().push(p.last() + hotlink_suffix())
}

/// Errors of hotlinking.
#[derive(Debug)]
pub enum HotlinkError {
    /// The file to repoint is not a regular file.
    OriginalIsNotAFile { path: FsPath },
    /// The source to point at is not a regular file.
    NewIsNotAFile { path: FsPath },
    /// The source to point at is a relative path.
    NewIsNotAbsolute { path: FsPath },
    /// The backup of the file to repoint exists already.
    HotlinkedFileExists { path: FsPath },
}

/// The views of the paths an error names.
pub open spec fn error_path(e: HotlinkError) -> Comps {
    match e {
        HotlinkError::OriginalIsNotAFile { path } => path@,
        HotlinkError::NewIsNotAFile { path } => path@,
        HotlinkError::NewIsNotAbsolute { path } => path@,
        HotlinkError::HotlinkedFileExists { path } => path@,
    }
}

/// The backup path of a file, when the path has a file name.
pub fn backup_path(original: &FsPath) -> (r: Option<FsPath>)
    ensures
        match r {
            Some(b) => file_name_of(original@) is Some && b@ == backup_comps(original@) && b.display_text() == path_text(b@),
            None => file_name_of(original@) is None,
        },
{
    match original.file_name() {
        Some(name) => {
            let ghost nv = name@;
            let mut backup_name = name;
            backup_name.append(".hotlink");
            proof {
                reveal_strlit(".hotlink");
                assert(".hotlink"@ =~= hotlink_suffix());
                assert(nv == original@.last());
                lemma_backup_name(nv);
                assert(backup_name@ == nv + hotlink_suffix());
            }
            Some(original.with_file_name(backup_name.as_str()))
        },
        None => None,
    }
}

/// Components joined by `/` with a text added to the last one are the joined text with
/// that text added.
proof fn lemma_join_slash_append(c: Comps, x: Seq<char>)
    requires
        c.len() > 0,
    ensures
        join_slash(c.drop_last().push(c.last() + x)) == join_slash(c) + x,
{
    let d = c.drop_last().push(c.last() + x);
    if c.len() == 1 {
        assert(d.len() == 1);
    } else {
        assert(d.drop_last() =~= c.drop_last());
        assert(d.last() == c.last() + x);
        assert(join_slash(c) == join_slash(c.drop_last()) + seq!['/'] + c.last());
        assert(join_slash(d) == join_slash(d.drop_last()) + seq!['/'] + d.last());
        assert(join_slash(d) =~= join_slash(c) + x);
    }
}

/// The text of a file's backup is the file's text with `.hotlink` added.
pub proof fn lemma_backup_text(p: Comps)
    requires
        file_name_of(p) is Some,
    ensures
        path_text(backup_comps(p)) == path_text(p) + hotlink_suffix(),
{
    let b = backup_comps(p);
    let x = hotlink_suffix();
    lemma_backup_name(p.last());
    if is_abs(p) {
        assert(p.len() >= 2) by {
            if p.len() == 1 {
                assert(p.last() == root_comp());
                assert(p.last().contains('/')) by {
                    assert(p.last()[0] == '/');
                }
            }
        }
        let q = p.drop_first();
        assert(b.drop_first() =~= q.drop_last().push(q.last() + x));
        assert(b[0] == p[0]);
        assert(is_abs(b));
        lemma_join_slash_append(q, x);
        assert(path_text(b) =~= path_text(p) + x);
    } else {
        assert(!is_abs(b)) by {
            if b.len() > 0 && b[0] == root_comp() {
                if p.len() == 1 {
                    assert(b[0] == p.last() + x);
                    assert(b[0].len() > 1);
                } else {
                    assert(b[0] == p[0]);
                }
            }
        }
        lemma_join_slash_append(p, x);
    }
}

/// A plain name with `.hotlink` added is a plain name.
proof fn lemma_backup_name(name: Seq<char>)
    requires
        name_comp(name),
    ensures
        name_comp(name + hotlink_suffix()),
{
    let b = name + hotlink_suffix();
    assert(!b.contains('/')) by {
        if b.contains('/') {
            let j = choose|j: int| 0 <= j < b.len() && b[j] == '/';
            if j < name.len() {
                assert(name[j] == '/');
                assert(name.contains('/'));
            } else {
                assert(hotlink_suffix()[j - name.len()] == '/');
            }
        }
    }
    assert(b.len() > 2);
}

/// The last dot of a text followed by a text without dots is the last dot of the first.
proof fn lemma_last_dot_append(s: Seq<char>, u: Seq<char>)
    requires
        forall|j: int| 0 <= j < u.len() ==> u[j] != '.',
    ensures
        last_dot(s + u) == last_dot(s),
    decreases u.len(),
{
    if u.len() > 0 {
        assert((s + u).drop_last() =~= s + u.drop_last());
        assert((s + u).last() == u.last());
        lemma_last_dot_append(s, u.drop_last());
    } else {
        assert(s + u =~= s);
    }
}

/// Removing the extension of a backup gives back the file it backs up.
pub proof fn lemma_restore_inverts_backup(p: Comps)
    requires
        file_name_of(p) is Some,
    ensures
        strip_extension_comps(backup_comps(p)) == p,
{
    let name = p.last();
    let b = backup_comps(p);
    let bn = name + hotlink_suffix();
    lemma_backup_name(name);
    assert(b.last() == bn);
    assert(file_name_of(b) == Some(bn));
    let rest = seq!['h', 'o', 't', 'l', 'i', 'n', 'k'];
    assert(bn =~= (name + seq!['.']) + rest);
    lemma_last_dot_append(name + seq!['.'], rest);
    assert((name + seq!['.']).drop_last() =~= name);
    assert(last_dot(name + seq!['.']) == name.len());
    assert(file_stem(bn) =~= name);
    assert(replace_last(b, name) =~= p);
}

/// A hotlinked file: the configuration path now links to the source, and the original
/// file waits in its backup.
#[derive(Debug)]
pub struct HotlinkedFile {
    config_path: FsPath,
    original_file_path: FsPath,
    original_file_backed_path: FsPath,
}

impl HotlinkedFile {
    #[verifier::type_invariant]
    closed spec fn inv(self) -> bool {
        &&& file_name_of(self.original_file_path@) is Some
        &&& self.original_file_backed_path@ == backup_comps(self.original_file_path@)
        &&& self.original_file_backed_path.display_text() == path_text(self.original_file_backed_path@)
    }

    /// The source the file now links to.
    pub closed spec fn source(self) -> Comps {
        self.config_path@
    }

    /// The path that was repointed.
    pub closed spec fn original(self) -> Comps {
        self.original_file_path@
    }

    /// Where the original file waits.
    pub closed spec fn backup(self) -> Comps {
        self.original_file_backed_path@
    }

    /// The text the source is shown by.
    pub closed spec fn source_text(self) -> Seq<char> {
        self.config_path.display_text()
    }

    /// The text the repointed path is shown by.
    pub closed spec fn original_text(self) -> Seq<char> {
        self.original_file_path.display_text()
    }

    /// The source the file now links to.
    pub fn config_path(&self) -> (r: &FsPath)
        ensures
            r@ == self.source(),
            r.display_text() == self.source_text(),
    {
        &self.config_path
    }

    /// The path that was repointed.
    pub fn original_file_path(&self) -> (r: &FsPath)
        ensures
            r@ == self.original(),
            r.display_text() == self.original_text(),
    {
        &self.original_file_path
    }

    /// Where the original file waits.
    pub fn original_file_backed_path(&self) -> (r: &FsPath)
        ensures
            r@ == self.backup(),
            r@ == backup_comps(self.original()),
            r.display_text() == path_text(r@),
    {
        proof {
            use_type_invariant(self);
        }
        &self.original_file_backed_path
    }

    /// Where the backup is moved back to: the backup path without its `.hotlink`
    /// extension, which is the repointed path.
    pub fn restore_path(&self) -> (r: FsPath)
        ensures
            r@ == strip_extension_comps(self.backup()),
            r@ == self.original(),
            r.display_text() == path_text(r@),
    {
        proof {
            use_type_invariant(self);
            lemma_restore_inverts_backup(self.original_file_path@);
        }
        self.original_file_backed_path.strip_extension()
    }
}

/// Decides a hotlink of `original_file_path` to the source `config_path`, given whether
/// each is a regular file and whether the backup path of the original exists already.
/// The checks come in this order: the original is a file, the source is a file, the
/// source is absolute, the backup is free.
pub fn hotlink(
    original_file_path: FsPath,
    config_path: FsPath,
    original_is_file: bool,
    config_is_file: bool,
    backup_exists: bool,
) -> (r: Result<HotlinkedFile, HotlinkError>)
    requires
        original_is_file && config_is_file && is_abs(config_path@) ==> file_name_of(original_file_path@) is Some,
    ensures
        match r {
            Ok(h) => {
                &&& original_is_file && config_is_file && is_abs(config_path@) && !backup_exists
                &&& h.original() == original_file_path@
                &&& h.source() == config_path@
                &&& h.backup() == backup_comps(original_file_path@)
                &&& h.source_text() == config_path.display_text()
                &&& h.original_text() == original_file_path.display_text()
            },
            Err(HotlinkError::OriginalIsNotAFile { path }) => !original_is_file && path@ == original_file_path@,
            Err(HotlinkError::NewIsNotAFile { path }) => original_is_file && !config_is_file && path@ == config_path@,
            Err(HotlinkError::NewIsNotAbsolute { path }) => original_is_file && config_is_file && !is_abs(config_path@) && path@ == config_path@,
            Err(HotlinkError::HotlinkedFileExists { path }) => original_is_file && config_is_file && is_abs(config_path@) && backup_exists
                && path@ == backup_comps(original_file_path@),
        },
{
    if !original_is_file {
        return Err(HotlinkError::OriginalIsNotAFile { path: original_file_path });
    }
    if !config_is_file {
        return Err(HotlinkError::NewIsNotAFile { path: config_path });
    }
    if !config_path.is_absolute() {
        return Err(HotlinkError::NewIsNotAbsolute { path: config_path });
    }
    let backed = match backup_path(&original_file_path) {
        Some(b) => b,
        None => {
            assert(false);
            return Err(HotlinkError::OriginalIsNotAFile { path: original_file_path });
        },
    };
    if backup_exists {
        return Err(HotlinkError::HotlinkedFileExists { path: backed });
    }
    Ok(HotlinkedFile { config_path, original_file_path, original_file_backed_path: backed })
}

} // verus!

verus! {

/// The files of `v` whose source is `k`, by position.
pub open spec fn has_source(v: Seq<HotlinkedFile>, k: Comps) -> bool {
    exists|i: int| 0 <= i < v.len() && (#[trigger] v[i]).source() == k
}

/// The position of the file of `v` whose source is `k`.
pub open spec fn source_index(v: Seq<HotlinkedFile>, k: Comps) -> int {
    choose|i: int| 0 <= i < v.len() && (#[trigger] v[i]).source() == k
}

/// For each source of `files`, the texts that it and the path linking to it are shown by.
pub open spec fn registry_shown(files: Seq<HotlinkedFile>) -> Map<Comps, (Seq<char>, Seq<char>)> {
    Map::new(
        |k: Comps| has_source(files, k),
        |k: Comps| (files[source_index(files, k)].source_text(), files[source_index(files, k)].original_text()),
    )
}

/// The hotlinked files that are being watched, by their sources; each source once.
#[derive(Debug)]
pub struct HotlinkRegistry {
    files: Vec<HotlinkedFile>,
}

impl View for HotlinkRegistry {
    type V = Map<Comps, Comps>;

    /// The map from each source to the path that links to it.
    closed spec fn view(&self) -> Map<Comps, Comps> {
        Map::new(|k: Comps| has_source(self.files@, k), |k: Comps| self.files@[source_index(self.files@, k)].original())
    }
}

/// The pairs of source and repointed path to touch after an event on `paths`: none unless
/// the event closed a file written to, else one for each event path that is a source.
pub open spec fn relink_targets_spec(m: Map<Comps, Comps>, close_write: bool, paths: Seq<Comps>) -> Seq<(Comps, Comps)>
    decreases paths.len(),
{
    if !close_write || paths.len() == 0 {
        Seq::empty()
    } else {
        let rest = relink_targets_spec(m, close_write, paths.drop_last());
        let p = paths.last();
        if m.contains_key(p) {
            rest.push((p, m[p]))
        } else {
            rest
        }
    }
}

/// Only an event that closed a file written to relinks anything; after one, the pairs to
/// touch are exactly the event paths that are hotlinked sources, each with the path that
/// links to it.
pub proof fn lemma_relink_targets_exact(m: Map<Comps, Comps>, close_write: bool, paths: Seq<Comps>)
    ensures
        !close_write ==> relink_targets_spec(m, close_write, paths).len() == 0,
        forall|i: int| 0 <= i < relink_targets_spec(m, close_write, paths).len() ==> {
            let t = #[trigger] relink_targets_spec(m, close_write, paths)[i];
            &&& m.contains_key(t.0)
            &&& m[t.0] == t.1
            &&& paths.contains(t.0)
        },
        close_write ==> forall|j: int| 0 <= j < paths.len() && m.contains_key(#[trigger] paths[j]) ==> exists|i: int|
            0 <= i < relink_targets_spec(m, close_write, paths).len() && (#[trigger] relink_targets_spec(m, close_write, paths)[i]).0 == paths[j],
    decreases paths.len(),
{
    if close_write && paths.len() > 0 {
        let init = paths.drop_last();
        lemma_relink_targets_exact(m, close_write, init);
        let rest = relink_targets_spec(m, close_write, init);
        let r = relink_targets_spec(m, close_write, paths);
        let p = paths.last();
        assert forall|i: int| 0 <= i < r.len() implies {
            let t = #[trigger] r[i];
            &&& m.contains_key(t.0)
            &&& m[t.0] == t.1
            &&& paths.contains(t.0)
        } by {
            if i < rest.len() {
                assert(r[i] == rest[i]);
                let t = rest[i];
                let j = choose|j: int| 0 <= j < init.len() && init[j] == t.0;
                assert(paths[j] == init[j]);
            } else {
                assert(paths[paths.len() - 1] == p);
            }
        }
        assert forall|j: int| 0 <= j < paths.len() && m.contains_key(#[trigger] paths[j]) implies exists|i: int|
            0 <= i < r.len() && (#[trigger] r[i]).0 == paths[j] by {
            if j < paths.len() - 1 {
                assert(init[j] == paths[j]);
                let i = choose|i: int| 0 <= i < rest.len() && (#[trigger] rest[i]).0 == init[j];
                assert(r[i] == rest[i]);
            } else {
                assert(r[rest.len() as int] == (p, m[p]));
            }
        }
    }
}

impl HotlinkRegistry {
    /// For each source, the text it is shown by and the text of the path that links to it.
    pub closed spec fn shown(self) -> Map<Comps, (Seq<char>, Seq<char>)> {
        registry_shown(self.files@)
    }

    #[verifier::type_invariant]
    closed spec fn inv(self) -> bool {
        forall|i: int, j: int| 0 <= i < self.files@.len() && 0 <= j < self.files@.len() && i != j
            ==> (#[trigger] self.files@[i]).source() != (#[trigger] self.files@[j]).source()
    }

    /// No hotlinked files.
    pub fn new() -> (r: HotlinkRegistry)
        ensures
            r@ == Map::<Comps, Comps>::empty(),
    {
        let r = HotlinkRegistry { files: Vec::new() };
        assert(r@ =~= Map::<Comps, Comps>::empty());
        r
    }

    /// The position of the file whose source is `p`.
    fn find(&self, p: &FsPath) -> (r: Option<usize>)
        ensures
            match r {
                Some(i) => i < self.files@.len() && self.files@[i as int].source() == p@ && self@.contains_key(p@)
                    && self@[p@] == self.files@[i as int].original() && source_index(self.files@, p@) == i,
                None => !self@.contains_key(p@),
            },
    {
        proof {
            use_type_invariant(self);
        }
        let n = self.files.len();
        for i in 0..n
            invariant
                n == self.files@.len(),
                forall|j: int| 0 <= j < i ==> (#[trigger] self.files@[j]).source() != p@,
        {
            if self.files[i].config_path().same_as(p) {
                proof {
                    use_type_invariant(self);
                    assert(has_source(self.files@, p@));
                    let j = source_index(self.files@, p@);
                    assert(self.files@[j].source() == p@);
                }
                return Some(i);
            }
        }
        None
    }

    /// Adds a hotlinked file; a file with the same source that was there is handed back.
    pub fn insert(&mut self, file: HotlinkedFile) -> (displaced: Option<HotlinkedFile>)
        ensures
            final(self)@ == old(self)@.insert(file.source(), file.original()),
            final(self).shown() == old(self).shown().insert(file.source(), (file.source_text(), file.original_text())),
            match displaced {
                Some(d) => old(self)@.contains_key(file.source()) && d.source() == file.source()
                    && d.original() == old(self)@[file.source()],
                None => !old(self)@.contains_key(file.source()),
            },
    {
        proof {
            use_type_invariant(&*self);
        }
        let ghost fs = file.source();
        let ghost fo = file.original();
        let ghost ft = (file.source_text(), file.original_text());
        let ghost old_files = self.files@;
        let found = self.find(file.config_path());
        let mut files: Vec<HotlinkedFile> = Vec::new();
        std::mem::swap(&mut files, &mut self.files);
        let displaced = match found {
            Some(i) => {
                let d = files.remove(i);
                files.push(file);
                Some(d)
            },
            None => {
                files.push(file);
                None
            },
        };
        proof {
            let n = old_files.len();
            assert forall|a: int, b: int| 0 <= a < files@.len() && 0 <= b < files@.len() && a != b
                implies (#[trigger] files@[a]).source() != (#[trigger] files@[b]).source() by {
                let last = files@.len() - 1;
                match found {
                    Some(i) => {
                        let oa = if a < i { a } else { a + 1 };
                        let ob = if b < i { b } else { b + 1 };
                        if a != last && b != last {
                            assert(files@[a] == old_files[oa] && files@[b] == old_files[ob]);
                        } else if a == last {
                            assert(files@[b] == old_files[ob]);
                            assert(ob != i);
                        } else {
                            assert(files@[a] == old_files[oa]);
                            assert(oa != i);
                        }
                    },
                    None => {
                        if a != last && b != last {
                            assert(files@[a] == old_files[a] && files@[b] == old_files[b]);
                        } else if a == last {
                            assert(files@[b] == old_files[b]);
                            assert(has_source(old_files, old_files[b].source()));
                        } else {
                            assert(files@[a] == old_files[a]);
                            assert(has_source(old_files, old_files[a].source()));
                        }
                    },
                }
            }
        }
        self.files = files;
        proof {
            let nf = self.files@;
            let last = nf.len() - 1;
            assert(self@ =~= old(self)@.insert(fs, fo)) by {
                assert forall|k: Comps| self@.contains_key(k) == old(self)@.insert(fs, fo).contains_key(k) by {
                    if has_source(nf, k) {
                        let j = choose|j: int| 0 <= j < nf.len() && (#[trigger] nf[j]).source() == k;
                        if j != last {
                            match found {
                                Some(i) => {
                                    let oj = if j < i { j } else { j + 1 };
                                    assert(nf[j] == old_files[oj]);
                                },
                                None => {
                                    assert(nf[j] == old_files[j]);
                                },
                            }
                        }
                    }
                    if has_source(old_files, k) && k != fs {
                        let j = choose|j: int| 0 <= j < old_files.len() && (#[trigger] old_files[j]).source() == k;
                        match found {
                            Some(i) => {
                                assert(j != i);
                                let nj = if j < i { j } else { j - 1 };
                                assert(nf[nj] == old_files[j]);
                            },
                            None => {
                                assert(nf[j] == old_files[j]);
                            },
                        }
                    }
                    if k == fs {
                        assert(nf[last].source() == fs);
                    }
                }
                assert forall|k: Comps| #[trigger] self@.contains_key(k) implies self@[k] == old(self)@.insert(fs, fo)[k] by {
                    let j = source_index(nf, k);
                    if j == last {
                        assert(k == fs);
                    } else {
                        let oj = match found {
                            Some(i) => if j < i { j } else { j + 1 },
                            None => j,
                        };
                        assert(nf[j] == old_files[oj]);
                        let oi = source_index(old_files, k);
                        assert(has_source(old_files, k));
                        assert(oi == oj);
                    }
                }
            }
            assert(registry_shown(nf) =~= registry_shown(old_files).insert(fs, ft)) by {
                assert forall|k: Comps| registry_shown(nf).contains_key(k) == registry_shown(old_files).insert(fs, ft).contains_key(k) by {
                    assert(self@.contains_key(k) == old(self)@.insert(fs, fo).contains_key(k));
                }
                assert forall|k: Comps| #[trigger] registry_shown(nf).contains_key(k) implies registry_shown(nf)[k] == registry_shown(old_files).insert(fs, ft)[k] by {
                    let j = source_index(nf, k);
                    assert(self@.contains_key(k));
                    if j == last {
                        assert(k == fs);
                    } else {
                        let oj = match found {
                            Some(i) => if j < i { j } else { j + 1 },
                            None => j,
                        };
                        assert(nf[j] == old_files[oj]);
                        let oi = source_index(old_files, k);
                        assert(has_source(old_files, k));
                        assert(oi == oj);
                    }
                }
            }
        }
        displaced
    }

    /// The number of hotlinked files.
    pub fn len(&self) -> (n: usize)
        ensures
            n == self@.dom().len(),
    {
        proof {
            use_type_invariant(self);
            lemma_sources_len(self.files@);
        }
        self.files.len()
    }

    /// The pairs of source and repointed path to touch after an event on `paths`.
    pub fn relink_targets(&self, close_write: bool, paths: &Vec<FsPath>) -> (r: Vec<(FsPath, FsPath)>)
        ensures
            r@.map_values(|t: (FsPath, FsPath)| (t.0@, t.1@)) == relink_targets_spec(self@, close_write, paths@.map_values(|p: FsPath| p@)),
            forall|t: int| 0 <= t < r@.len() ==> self.shown().contains_key((#[trigger] r@[t]).0@) && r@[t].0.display_text() == self.shown()[r@[t].0@].0
                && r@[t].1.display_text() == self.shown()[r@[t].0@].1,
    {
        let mut r: Vec<(FsPath, FsPath)> = Vec::new();
        let ghost pv = paths@.map_values(|p: FsPath| p@);
        if !close_write {
            assert(r@.map_values(|t: (FsPath, FsPath)| (t.0@, t.1@)) =~= relink_targets_spec(self@, close_write, pv));
            return r;
        }
        let n = paths.len();
        proof {
            assert(pv.take(0) =~= Seq::<Comps>::empty());
        }
        for i in 0..n
            invariant
                n == paths@.len(),
                close_write,
                pv == paths@.map_values(|p: FsPath| p@),
                r@.map_values(|t: (FsPath, FsPath)| (t.0@, t.1@)) == relink_targets_spec(self@, close_write, pv.take(i as int)),
                forall|t: int| 0 <= t < r@.len() ==> self.shown().contains_key((#[trigger] r@[t]).0@) && r@[t].0.display_text() == self.shown()[r@[t].0@].0
                    && r@[t].1.display_text() == self.shown()[r@[t].0@].1,
        {
            proof {
                assert(pv.take(i + 1).drop_last() =~= pv.take(i as int));
                assert(pv.take(i + 1).last() == paths@[i as int]@);
            }
            match self.find(&paths[i]) {
                Some(j) => {
                    let f = &self.files[j];
                    let ghost old_r = r@;
                    r.push((f.config_path().duplicate(), f.original_file_path().duplicate()));
                    proof {
                        assert(has_source(self.files@, paths@[i as int]@));
                        assert forall|t: int| 0 <= t < r@.len() implies self.shown().contains_key((#[trigger] r@[t]).0@) && r@[t].0.display_text() == self.shown()[r@[t].0@].0
                            && r@[t].1.display_text() == self.shown()[r@[t].0@].1 by {
                            if t < old_r.len() {
                                assert(r@[t] == old_r[t]);
                            }
                        }
                    }
                    proof {
                        assert(r@.map_values(|t: (FsPath, FsPath)| (t.0@, t.1@)) =~= relink_targets_spec(self@, close_write, pv.take(i as int)).push((paths@[i as int]@, self@[paths@[i as int]@])));
                    }
                },
                None => {},
            }
        }
        proof {
            assert(pv.take(n as int) =~= pv);
        }
        r
    }

    /// The hotlinked files, each once, to be restored.
    pub fn into_files(self) -> (r: Vec<HotlinkedFile>)
        ensures
            forall|i: int| 0 <= i < r@.len() ==> self@.contains_key((#[trigger] r@[i]).source()) && self@[r@[i].source()] == r@[i].original(),
            forall|k: Comps| #[trigger] self@.contains_key(k) ==> exists|i: int| 0 <= i < r@.len() && (#[trigger] r@[i]).source() == k,
            r@.len() == self@.dom().len(),
    {
        proof {
            use_type_invariant(&self);
            lemma_sources_len(self.files@);
            assert forall|i: int| 0 <= i < self.files@.len() implies self@.contains_key((#[trigger] self.files@[i]).source()) && self@[self.files@[i].source()] == self.files@[i].original() by {
                assert(has_source(self.files@, self.files@[i].source()));
                let j = source_index(self.files@, self.files@[i].source());
                assert(j == i);
            }
        }
        let HotlinkRegistry { files } = self;
        files
    }
}

/// Files with pairwise different sources have as many sources as files.
proof fn lemma_sources_len(v: Seq<HotlinkedFile>)
    requires
        forall|i: int, j: int| 0 <= i < v.len() && 0 <= j < v.len() && i != j ==> (#[trigger] v[i]).source() != (#[trigger] v[j]).source(),
    ensures
        Set::new(|k: Comps| has_source(v, k)).finite(),
        Set::new(|k: Comps| has_source(v, k)).len() == v.len(),
    decreases v.len(),
{
    let s = Set::new(|k: Comps| has_source(v, k));
    if v.len() == 0 {
        assert(s =~= Set::<Comps>::empty());
    } else {
        let init = v.drop_last();
        assert forall|i: int, j: int| 0 <= i < init.len() && 0 <= j < init.len() && i != j implies (#[trigger] init[i]).source() != (#[trigger] init[j]).source() by {
            assert(init[i] == v[i] && init[j] == v[j]);
        }
        lemma_sources_len(init);
        let si = Set::new(|k: Comps| has_source(init, k));
        let last = v[v.len() - 1].source();
        assert(s =~= si.insert(last)) by {
            assert forall|k: Comps| s.contains(k) == si.insert(last).contains(k) by {
                if has_source(v, k) {
                    let j = choose|j: int| 0 <= j < v.len() && (#[trigger] v[j]).source() == k;
                    if j < v.len() - 1 {
                        assert(init[j] == v[j]);
                    }
                }
                if has_source(init, k) {
                    let j = choose|j: int| 0 <= j < init.len() && (#[trigger] init[j]).source() == k;
                    assert(v[j] == init[j]);
                }
            }
        }
        assert(!si.contains(last)) by {
            if has_source(init, last) {
                let j = choose|j: int| 0 <= j < init.len() && (#[trigger] init[j]).source() == last;
                assert(v[j] == init[j]);
            }
        }
    }
}

} // verus!
