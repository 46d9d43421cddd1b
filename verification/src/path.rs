//! Paths as sequences of components, read the way Unix paths are read.
//!
//! A path is kept as the list of its components. The root directory is the
//! component `"/"`, a leading current directory is the component `"."`, a parent
//! directory is `".."`; every other component is a plain name. Two texts that name
//! the same components (`"a//b"`, `"a/./b/"`, `"a/b"`) give equal paths.
use vstd::prelude::*;

verus! {

/// The components of a path, each a text.
pub type Comps = Seq<Seq<char>>;

/// The component that stands for the root directory.
pub open spec fn root_comp() -> Seq<char> {
    seq!['/']
}

/// The component that stands for a leading current directory.
pub open spec fn cur_comp() -> Seq<char> {
    seq!['.']
}

/// The component that stands for a parent directory.
pub open spec fn parent_comp() -> Seq<char> {
    seq!['.', '.']
}

/// A component that may stand anywhere: a non-empty text without `/` that is not `.`.
pub open spec fn inner_comp(c: Seq<char>) -> bool {
    c.len() > 0 && !c.contains('/') && c != cur_comp()
}

/// A plain name: an inner component that is not `..`.
pub open spec fn name_comp(c: Seq<char>) -> bool {
    inner_comp(c) && c != parent_comp()
}

/// The components of a path are well formed: `"/"` or `"."` only at the front, and every
/// other component an inner one.
pub open spec fn comps_wf(p: Seq<Seq<char>>) -> bool {
    forall|i: int|
        #![trigger p[i]]
        0 <= i < p.len() ==> (i == 0 && (p[i] == root_comp() || p[i] == cur_comp())) || inner_comp(
            p[i],
        )
}

/// A path starts at the root directory.
pub open spec fn is_abs(p: Seq<Seq<char>>) -> bool {
    p.len() > 0 && p[0] == root_comp()
}

/// The pieces of a text between `/` characters, read from the left; there is always one
/// more piece than there are `/` characters.
pub open spec fn split_slash(s: Seq<char>) -> Seq<Seq<char>>
    decreases s.len(),
{
    if s.len() == 0 {
        seq![Seq::<char>::empty()]
    } else {
        let prev = split_slash(s.drop_last());
        if s.last() == '/' {
            prev.push(Seq::<char>::empty())
        } else {
            prev.update(prev.len() - 1, prev.last().push(s.last()))
        }
    }
}

/// The pieces that become components: the non-empty ones other than `.`.
pub open spec fn keep_pieces(pieces: Seq<Seq<char>>) -> Seq<Seq<char>>
    decreases pieces.len(),
{
    if pieces.len() == 0 {
        Seq::<Seq<char>>::empty()
    } else {
        let rest = keep_pieces(pieces.drop_last());
        let piece = pieces.last();
        if piece.len() == 0 || piece == cur_comp() {
            rest
        } else {
            rest.push(piece)
        }
    }
}

/// The components of a text: `"/"` in front when the text starts with `/`, else `"."` in
/// front when the first piece is `.`, then every non-empty piece other than `.`.
pub open spec fn parse_text(s: Seq<char>) -> Seq<Seq<char>> {
    let pieces = split_slash(s);
    let head = if s.len() > 0 && s[0] == '/' {
        seq![root_comp()]
    } else if pieces[0] == cur_comp() {
        seq![cur_comp()]
    } else {
        Seq::<Seq<char>>::empty()
    };
    head + keep_pieces(pieces)
}

/// Components joined by `/`.
pub open spec fn join_slash(c: Seq<Seq<char>>) -> Seq<char>
    decreases c.len(),
{
    if c.len() == 0 {
        Seq::<char>::empty()
    } else if c.len() == 1 {
        c[0]
    } else {
        join_slash(c.drop_last()) + seq!['/'] + c.last()
    }
}

/// The text of a path: `/` followed by the other components joined by `/` for an absolute
/// path, the components joined by `/` otherwise.
pub open spec fn path_text(p: Seq<Seq<char>>) -> Seq<char> {
    if is_abs(p) {
        seq!['/'] + join_slash(p.drop_first())
    } else {
        join_slash(p)
    }
}

/// `a` joined with `b`: `b` itself when it is absolute or `a` is empty, otherwise the
/// components of `a` followed by those of `b` (a leading `.` of `b` disappears).
pub open spec fn join_comps(a: Seq<Seq<char>>, b: Seq<Seq<char>>) -> Seq<Seq<char>> {
    if is_abs(b) || a.len() == 0 {
        b
    } else if b.len() > 0 && b[0] == cur_comp() {
        a + b.drop_first()
    } else {
        a + b
    }
}

/// The first components of `p` are those of `base`.
pub open spec fn has_prefix(p: Seq<Seq<char>>, base: Seq<Seq<char>>) -> bool {
    base.len() <= p.len() && p.subrange(0, base.len() as int) == base
}

/// The last components of `p` are those of `tail`.
pub open spec fn has_suffix(p: Seq<Seq<char>>, tail: Seq<Seq<char>>) -> bool {
    tail.len() <= p.len() && p.subrange(p.len() - tail.len(), p.len() as int) == tail
}

/// The directory a path lies in: none for the empty path and for the root directory,
/// otherwise the path without its last component.
pub open spec fn parent_of(p: Seq<Seq<char>>) -> Option<Seq<Seq<char>>> {
    if p.len() == 0 || p.last() == root_comp() {
        None
    } else {
        Some(p.drop_last())
    }
}

/// The last component when it is a plain name.
pub open spec fn file_name_of(p: Seq<Seq<char>>) -> Option<Seq<char>> {
    if p.len() > 0 && name_comp(p.last()) {
        Some(p.last())
    } else {
        None
    }
}

/// The position of the last `.` in a name, or -1.
pub open spec fn last_dot(name: Seq<char>) -> int
    decreases name.len(),
{
    if name.len() == 0 {
        -1
    } else if name.last() == '.' {
        name.len() - 1
    } else {
        last_dot(name.drop_last())
    }
}

/// A name without its extension: the text before the last `.`, unless that `.` is the
/// first character or there is none.
pub open spec fn file_stem(name: Seq<char>) -> Seq<char> {
    if last_dot(name) <= 0 {
        name
    } else {
        name.subrange(0, last_dot(name))
    }
}

/// `p` with its last component replaced by the text `c`; a `.` there vanishes.
pub open spec fn replace_last(p: Seq<Seq<char>>, c: Seq<char>) -> Seq<Seq<char>> {
    if c == cur_comp() {
        if p.len() == 1 {
            seq![cur_comp()]
        } else {
            p.drop_last()
        }
    } else {
        p.drop_last().push(c)
    }
}

/// A path with the extension of its file name removed; unchanged without a file name.
pub open spec fn strip_extension_comps(p: Seq<Seq<char>>) -> Seq<Seq<char>> {
    match file_name_of(p) {
        Some(name) => replace_last(p, file_stem(name)),
        None => p,
    }
}

/// The pieces of a text other than the first hold no `/`.
proof fn lemma_split_pieces(s: Seq<char>)
    ensures
        split_slash(s).len() >= 1,
        forall|i: int| 0 <= i < split_slash(s).len() ==> !(#[trigger] split_slash(s)[i]).contains('/'),
    decreases s.len(),
{
    if s.len() > 0 {
        lemma_split_pieces(s.drop_last());
        let prev = split_slash(s.drop_last());
        if s.last() != '/' {
            let l = prev.last().push(s.last());
            assert forall|j: int| 0 <= j < l.len() implies l[j] != '/' by {
                if j < l.len() - 1 {
                    assert(l[j] == prev.last()[j]);
                    assert(!prev[prev.len() - 1].contains('/'));
                    if l[j] == '/' {
                        assert(prev.last().contains('/'));
                    }
                }
            }
            assert forall|i: int| 0 <= i < split_slash(s).len() implies !(#[trigger] split_slash(
                s,
            )[i]).contains('/') by {
                if i == prev.len() - 1 {
                    assert(split_slash(s)[i] == l);
                } else {
                    assert(split_slash(s)[i] == prev[i]);
                }
            }
        } else {
            assert forall|i: int| 0 <= i < split_slash(s).len() implies !(#[trigger] split_slash(
                s,
            )[i]).contains('/') by {
                if i < prev.len() {
                    assert(split_slash(s)[i] == prev[i]);
                } else {
                    assert(split_slash(s)[i] =~= Seq::<char>::empty());
                }
            }
        }
    }
}

/// The kept pieces are inner components when no piece holds `/`.
proof fn lemma_keep_pieces_inner(pieces: Seq<Seq<char>>)
    requires
        forall|i: int| 0 <= i < pieces.len() ==> !(#[trigger] pieces[i]).contains('/'),
    ensures
        forall|i: int| 0 <= i < keep_pieces(pieces).len() ==> inner_comp(#[trigger] keep_pieces(pieces)[i]),
    decreases pieces.len(),
{
    if pieces.len() > 0 {
        assert(forall|i: int| 0 <= i < pieces.drop_last().len() ==> pieces.drop_last()[i] == pieces[i]);
        lemma_keep_pieces_inner(pieces.drop_last());
        assert(!pieces[pieces.len() - 1].contains('/'));
        let rest = keep_pieces(pieces.drop_last());
        let k = keep_pieces(pieces);
        assert forall|i: int| 0 <= i < k.len() implies inner_comp(#[trigger] k[i]) by {
            if i < rest.len() {
                assert(k[i] == rest[i]);
            } else {
                assert(k[i] == pieces.last());
            }
        }
    }
}

/// The components of any text are well formed.
pub proof fn lemma_parse_wf(s: Seq<char>)
    ensures
        comps_wf(parse_text(s)),
{
    lemma_split_pieces(s);
    lemma_keep_pieces_inner(split_slash(s));
    let p = parse_text(s);
    let pieces = split_slash(s);
    let head = if s.len() > 0 && s[0] == '/' {
        seq![root_comp()]
    } else if pieces[0] == cur_comp() {
        seq![cur_comp()]
    } else {
        Seq::<Seq<char>>::empty()
    };
    assert forall|i: int| 0 <= i < p.len() implies (i == 0 && (p[i] == root_comp() || p[i]
        == cur_comp())) || inner_comp(#[trigger] p[i]) by {
        if i >= head.len() {
            assert(p[i] == keep_pieces(pieces)[i - head.len()]);
        }
    }
}

/// Two path texts joined as texts: `tail` itself when it starts with `/`, else `base`, a
/// `/` when `base` is non-empty and does not end with one, and `tail`.
pub open spec fn join_text(base: Seq<char>, tail: Seq<char>) -> Seq<char> {
    if tail.len() > 0 && tail[0] == '/' {
        tail
    } else if base.len() > 0 && base.last() != '/' {
        base + seq!['/'] + tail
    } else {
        base + tail
    }
}

/// Two path texts joined as texts, each kept as written.
pub fn join_texts(base: &str, tail: &str) -> (r: String)
    ensures
        r@ == join_text(base@, tail@),
{
    let tl = tail.unicode_len();
    let bl = base.unicode_len();
    if tl > 0 && tail.get_char(0) == '/' {
        return String::from_str(tail);
    }
    let mut r = String::from_str(base);
    if bl > 0 && base.get_char(bl - 1) != '/' {
        r.append("/");
        proof {
            reveal_strlit("/");
            assert("/"@ =~= seq!['/']);
        }
    }
    r.append(tail);
    r
}

/// A path: its components, and the text it is shown by. A path read from a text is
/// shown by that text as written; paths joined are shown by their texts joined; other
/// paths are shown by the text of their components.
#[derive(Debug, PartialEq, Eq)]
pub struct FsPath {
    comps: Vec<String>,
    shown: String,
}

/// An optional path, where there is one, is shown by the text of its components.
pub open spec fn shown_normalized(o: Option<FsPath>) -> bool {
    match o {
        Some(p) => p.display_text() == path_text(p@),
        None => true,
    }
}

/// The components of an optional path.
pub open spec fn opt_comps(o: Option<FsPath>) -> Option<Seq<Seq<char>>> {
    match o {
        Some(p) => Some(p@),
        None => None,
    }
}

impl View for FsPath {
    type V = Seq<Seq<char>>;

    closed spec fn view(&self) -> Seq<Seq<char>> {
        self.comps@.map_values(|c: String| c@)
    }
}

/// Whether a text is the single character `c`.
pub fn is_single_char(s: &str, c: char) -> (r: bool)
    ensures
        r == (s@ == seq![c]),
{
    if s.unicode_len() != 1 {
        return false;
    }
    let r = s.get_char(0) == c;
    proof {
        if r {
            assert(s@ =~= seq![c]);
        }
    }
    r
}

/// Whether a component text is a plain name.
fn is_name(c: &str) -> (r: bool)
    requires
        c@ == root_comp() || c@ == cur_comp() || inner_comp(c@),
    ensures
        r == name_comp(c@),
{
    let n = c.unicode_len();
    if n == 0 {
        return false;
    }
    if is_single_char(c, '/') {
        assert(c@[0] == '/');
        assert(c@.contains('/'));
        return false;
    }
    if is_single_char(c, '.') {
        return false;
    }
    if n == 2 && c.get_char(0) == '.' && c.get_char(1) == '.' {
        assert(c@ =~= parent_comp());
        return false;
    }
    assert(c@ != parent_comp());
    true
}

/// The position of the last `.` in a text.
fn find_last_dot(name: &str) -> (r: Option<usize>)
    ensures
        match r {
            Some(d) => last_dot(name@) == d,
            None => last_dot(name@) == -1,
        },
{
    let n = name.unicode_len();
    let mut found: Option<usize> = None;
    for i in 0..n
        invariant
            n == name@.len(),
            match found {
                Some(d) => last_dot(name@.take(i as int)) == d,
                None => last_dot(name@.take(i as int)) == -1,
            },
    {
        proof {
            assert(name@.take(i + 1).drop_last() =~= name@.take(i as int));
        }
        if name.get_char(i) == '.' {
            found = Some(i);
        }
    }
    assert(name@.take(n as int) =~= name@);
    found
}

/// The stem of a name holds no `/` when the name holds none.
proof fn lemma_stem_no_slash(name: Seq<char>)
    requires
        !name.contains('/'),
    ensures
        !file_stem(name).contains('/'),
        file_stem(name).len() > 0 || name.len() == 0,
{
    lemma_last_dot_range(name);
    if last_dot(name) > 0 {
        let st = name.subrange(0, last_dot(name));
        assert forall|j: int| 0 <= j < st.len() implies st[j] != '/' by {
            assert(st[j] == name[j]);
        }
    }
}

/// The last dot lies within the name and is a dot.
proof fn lemma_last_dot_range(name: Seq<char>)
    ensures
        -1 <= last_dot(name) < name.len(),
        last_dot(name) >= 0 ==> name[last_dot(name)] == '.',
        forall|j: int| last_dot(name) < j < name.len() ==> name[j] != '.',
    decreases name.len(),
{
    if name.len() > 0 && name.last() != '.' {
        lemma_last_dot_range(name.drop_last());
        assert forall|j: int| last_dot(name) < j < name.len() implies name[j] != '.' by {
            if j < name.len() - 1 {
                assert(name[j] == name.drop_last()[j]);
            }
        }
    }
}

impl FsPath {
    #[verifier::type_invariant]
    closed spec fn inv(self) -> bool {
        comps_wf(self@)
    }

    /// The text the path is shown by.
    pub closed spec fn display_text(self) -> Seq<char> {
        self.shown@
    }

    /// The text the path is shown by.
    pub fn display(&self) -> (r: &str)
        ensures
            r@ == self.display_text(),
    {
        self.shown.as_str()
    }

    /// The same path, shown by `shown`.
    fn with_shown(self, shown: String) -> (r: FsPath)
        ensures
            r@ == self@,
            r.display_text() == shown@,
    {
        proof {
            use_type_invariant(&self);
        }
        let FsPath { comps, shown: _ } = self;
        FsPath { comps, shown }
    }

    /// The path with these components, shown by their text.
    fn normalized(comps: Vec<String>) -> (r: FsPath)
        requires
            comps_wf(comps@.map_values(|c: String| c@)),
        ensures
            r@ == comps@.map_values(|c: String| c@),
            r.display_text() == path_text(r@),
    {
        let p = FsPath { comps, shown: String::new() };
        let t = p.to_text();
        p.with_shown(t)
    }

    /// The same path, shown by the text of its components.
    fn renormalized(&self) -> (r: FsPath)
        ensures
            r@ == self@,
            r.display_text() == path_text(r@),
    {
        let d = self.duplicate();
        let t = d.to_text();
        d.with_shown(t)
    }

    /// The path with no components (the empty text).
    pub fn empty() -> (r: FsPath)
        ensures
            r@ == Seq::<Seq<char>>::empty(),
            r.display_text() == path_text(r@),
    {
        let r = FsPath { comps: Vec::new(), shown: String::new() };
        assert(r@ =~= Seq::<Seq<char>>::empty());
        r
    }

    /// The path that a text names.
    pub fn parse(s: &str) -> (r: FsPath)
        ensures
            r@ == parse_text(s@),
            r.display_text() == s@,
    {
        let n = s.unicode_len();
        let mut kept: Vec<String> = Vec::new();
        let mut cur_start: usize = 0;
        let mut seen_slash = false;
        let mut first_dot = false;
        proof {
            assert(s@.take(0) =~= Seq::<char>::empty());
        }
        for i in 0..n
            invariant
                n == s@.len(),
                cur_start <= i,
                split_slash(s@.take(i as int)).last() =~= s@.subrange(cur_start as int, i as int),
                kept@.map_values(|c: String| c@) =~= keep_pieces(
                    split_slash(s@.take(i as int)).drop_last(),
                ),
                !seen_slash ==> cur_start == 0 && split_slash(s@.take(i as int)).len() == 1,
                seen_slash ==> split_slash(s@.take(i as int)).len() > 1 && first_dot == (split_slash(
                    s@.take(i as int),
                )[0] == cur_comp()),
        {
            let ghost prev = split_slash(s@.take(i as int));
            let c = s.get_char(i);
            proof {
                assert(s@.take(i + 1).drop_last() =~= s@.take(i as int));
                assert(s@.take(i + 1).last() == c);
            }
            if c == '/' {
                let piece = s.substring_char(cur_start, i);
                let is_dot = is_single_char(piece, '.');
                if !seen_slash {
                    first_dot = is_dot;
                    seen_slash = true;
                }
                if i != cur_start && !is_dot {
                    kept.push(String::from_str(piece));
                }
                cur_start = i + 1;
                proof {
                    let next = split_slash(s@.take(i + 1));
                    assert(next == prev.push(Seq::<char>::empty()));
                    assert(next.drop_last() =~= prev);
                    assert(prev =~= prev.drop_last().push(prev.last()));
                    assert(s@.subrange(cur_start as int, i + 1) =~= Seq::<char>::empty());
                }
            } else {
                proof {
                    let next = split_slash(s@.take(i + 1));
                    assert(next == prev.update(prev.len() - 1, prev.last().push(c)));
                    assert(next.drop_last() =~= prev.drop_last());
                    assert(s@.subrange(cur_start as int, i + 1) =~= s@.subrange(
                        cur_start as int,
                        i as int,
                    ).push(c));
                }
            }
        }
        let last = s.substring_char(cur_start, n);
        let last_dot = is_single_char(last, '.');
        if cur_start != n && !last_dot {
            kept.push(String::from_str(last));
        }
        let ghost pieces = split_slash(s@);
        proof {
            assert(s@.take(n as int) =~= s@);
            assert(pieces =~= pieces.drop_last().push(pieces.last()));
            assert(kept@.map_values(|c: String| c@) =~= keep_pieces(pieces));
        }
        let starts_at_root = n > 0 && s.get_char(0) == '/';
        let dot_head = if seen_slash {
            first_dot
        } else {
            last_dot
        };
        let mut comps: Vec<String> = Vec::new();
        if starts_at_root {
            comps.push(String::from_str("/"));
        } else if dot_head {
            comps.push(String::from_str("."));
        }
        proof {
            reveal_strlit("/");
            reveal_strlit(".");
        }
        let h = comps.len();
        let ghost head_comps = comps@.map_values(|c: String| c@);
        let k = kept.len();
        for j in 0..k
            invariant
                k == kept@.len(),
                h <= 1,
                comps@.len() == h + j,
                forall|m: int| 0 <= m < h ==> #[trigger] comps@[m]@ == head_comps[m],
                head_comps.len() == h,
                forall|m: int| 0 <= m < j ==> #[trigger] comps@[h + m]@ == kept@[m]@,
        {
            comps.push(kept[j].clone());
        }
        proof {
            reveal_strlit("/");
            reveal_strlit(".");
            let head = if s@.len() > 0 && s@[0] == '/' {
                seq![root_comp()]
            } else if pieces[0] == cur_comp() {
                seq![cur_comp()]
            } else {
                Seq::<Seq<char>>::empty()
            };
            assert(dot_head == (pieces[0] == cur_comp()));
            assert(starts_at_root == (s@.len() > 0 && s@[0] == '/'));
            if starts_at_root {
                assert(head_comps[0] == root_comp());
            } else if dot_head {
                assert(head_comps[0] == cur_comp());
            }
            assert(head_comps =~= head);
            let kv = kept@.map_values(|c: String| c@);
            assert(kv =~= keep_pieces(pieces));
            let cv = comps@.map_values(|c: String| c@);
            assert forall|m: int| 0 <= m < cv.len() implies cv[m] == (head + kv)[m] by {
                if m < h {
                    assert(comps@[m]@ == head_comps[m]);
                } else {
                    assert(comps@[h + (m - h)]@ == kept@[m - h]@);
                }
            }
            assert(cv =~= head + kv);
            lemma_parse_wf(s@);
        }
        FsPath { comps, shown: String::from_str(s) }
    }

    /// The text of the path.
    pub fn to_text(&self) -> (r: String)
        ensures
            r@ == path_text(self@),
    {
        let mut r = String::new();
        let n = self.comps.len();
        let mut start: usize = 0;
        if self.is_absolute() {
            r.append("/");
            start = 1;
        }
        proof {
            reveal_strlit("/");
            assert(self@.subrange(start as int, start as int) =~= Seq::<Seq<char>>::empty());
        }
        let ghost base = r@;
        for i in start..n
            invariant
                n == self@.len(),
                start <= n,
                base == (if is_abs(self@) { seq!['/'] } else { Seq::<char>::empty() }),
                start == (if is_abs(self@) { 1int } else { 0int }),
                r@ == base + join_slash(self@.subrange(start as int, i as int)),
        {
            proof {
                reveal_strlit("/");
            }
            if i > start {
                r.append("/");
            }
            r.append(self.comps[i].as_str());
            proof {
                let prefix = self@.subrange(start as int, i + 1);
                assert(prefix.drop_last() =~= self@.subrange(start as int, i as int));
                if i == start {
                    assert(join_slash(self@.subrange(start as int, i as int)) =~= Seq::<char>::empty());
                }
            }
        }
        proof {
            if is_abs(self@) {
                assert(self@.subrange(1, n as int) =~= self@.drop_first());
            } else {
                assert(self@.subrange(0, n as int) =~= self@);
            }
        }
        r
    }

    /// This path joined with `other`.
    pub fn join(&self, other: &FsPath) -> (r: FsPath)
        ensures
            r@ == join_comps(self@, other@),
            r.display_text() == join_text(self.display_text(), other.display_text()),
    {
        proof {
            use_type_invariant(self);
            use_type_invariant(other);
        }
        let shown = join_texts(self.shown.as_str(), other.shown.as_str());
        if self.comps.len() == 0 || other.is_absolute() {
            return other.duplicate().with_shown(shown);
        }
        let mut comps: Vec<String> = Vec::new();
        let n = self.comps.len();
        for i in 0..n
            invariant
                n == self.comps@.len(),
                comps@.len() == i,
                forall|j: int| 0 <= j < i ==> #[trigger] comps@[j]@ == self.comps@[j]@,
        {
            comps.push(self.comps[i].clone());
        }
        let m = other.comps.len();
        let start: usize = if m > 0 && is_single_char(other.comps[0].as_str(), '.') {
            1
        } else {
            0
        };
        for i in start..m
            invariant
                n == self.comps@.len(),
                m == other.comps@.len(),
                start <= m,
                comps@.len() == n + i - start,
                forall|j: int| 0 <= j < n ==> #[trigger] comps@[j]@ == self.comps@[j]@,
                forall|j: int| n <= j < n + i - start ==> #[trigger] comps@[j]@ == other.comps@[j - n + start]@,
        {
            comps.push(other.comps[i].clone());
        }
        let ghost expected = join_comps(self@, other@);
        proof {
            assert(comps@.map_values(|c: String| c@) =~= expected);
            assert forall|i: int| 0 <= i < expected.len() implies (i == 0 && (expected[i] == root_comp()
                || expected[i] == cur_comp())) || inner_comp(#[trigger] expected[i]) by {
                if i >= n {
                    assert(expected[i] == other@[i - n + start]);
                    assert(i - n + start > 0 || !(other@[0] == root_comp() || other@[0] == cur_comp()));
                } else {
                    assert(expected[i] == self@[i]);
                }
            }
        }
        FsPath { comps, shown }
    }

    /// Whether the first components of this path are those of `base`.
    pub fn starts_with(&self, base: &FsPath) -> (r: bool)
        ensures
            r == has_prefix(self@, base@),
    {
        let n = base.comps.len();
        if n > self.comps.len() {
            return false;
        }
        for i in 0..n
            invariant
                n == base@.len(),
                n <= self@.len(),
                forall|j: int| 0 <= j < i ==> self@[j] == base@[j],
        {
            if self.comps[i] != base.comps[i] {
                assert(self@.subrange(0, n as int)[i as int] != base@[i as int]);
                return false;
            }
        }
        assert(self@.subrange(0, n as int) =~= base@);
        true
    }

    /// Whether the last components of this path are those of `tail`.
    pub fn ends_with(&self, tail: &FsPath) -> (r: bool)
        ensures
            r == has_suffix(self@, tail@),
    {
        let n = tail.comps.len();
        let m = self.comps.len();
        if n > m {
            return false;
        }
        let off = m - n;
        for i in 0..n
            invariant
                n == tail@.len(),
                m == self@.len(),
                off == m - n,
                forall|j: int| 0 <= j < i ==> self@[off + j] == tail@[j],
        {
            if self.comps[off + i] != tail.comps[i] {
                assert(self@.subrange(off as int, m as int)[i as int] != tail@[i as int]);
                return false;
            }
        }
        assert(self@.subrange(off as int, m as int) =~= tail@);
        true
    }

    /// The components after the first `n`, when there are any.
    pub fn skip_components(&self, n: usize) -> (r: Option<FsPath>)
        ensures
            n < self@.len() ==> opt_comps(r) == Some(self@.skip(n as int)),
            n >= self@.len() ==> r is None,
            shown_normalized(r),
    {
        proof {
            use_type_invariant(self);
        }
        let m = self.comps.len();
        if n >= m {
            return None;
        }
        let mut comps: Vec<String> = Vec::new();
        for i in n..m
            invariant
                m == self.comps@.len(),
                n <= m,
                comps@.len() == i - n,
                forall|j: int| 0 <= j < i - n ==> #[trigger] comps@[j]@ == self.comps@[j + n]@,
        {
            comps.push(self.comps[i].clone());
        }
        let ghost expected = self@.skip(n as int);
        proof {
            assert(comps@.map_values(|c: String| c@) =~= expected);
            assert forall|i: int| 0 <= i < expected.len() implies (i == 0 && (expected[i] == root_comp()
                || expected[i] == cur_comp())) || inner_comp(#[trigger] expected[i]) by {
                assert(expected[i] == self@[i + n]);
            }
        }
        Some(FsPath::normalized(comps))
    }

    /// This path without the first components that `base` names, when it starts with them.
    pub fn strip_prefix(&self, base: &FsPath) -> (r: Option<FsPath>)
        ensures
            has_prefix(self@, base@) ==> opt_comps(r) == Some(self@.skip(base@.len() as int)),
            !has_prefix(self@, base@) ==> r is None,
            shown_normalized(r),
    {
        if !self.starts_with(base) {
            return None;
        }
        let n = base.comps.len();
        if n == self.comps.len() {
            let r = FsPath::empty();
            assert(self@.skip(n as int) =~= Seq::<Seq<char>>::empty());
            return Some(r);
        }
        self.skip_components(n)
    }

    /// The directory this path lies in.
    pub fn parent(&self) -> (r: Option<FsPath>)
        ensures
            opt_comps(r) == parent_of(self@),
            shown_normalized(r),
    {
        proof {
            use_type_invariant(self);
        }
        let m = self.comps.len();
        if m == 0 || self.is_last_root() {
            return None;
        }
        let mut comps: Vec<String> = Vec::new();
        for i in 0..m - 1
            invariant
                m == self.comps@.len(),
                m > 0,
                comps@.len() == i,
                forall|j: int| 0 <= j < i ==> #[trigger] comps@[j]@ == self.comps@[j]@,
        {
            comps.push(self.comps[i].clone());
        }
        let ghost expected = self@.drop_last();
        proof {
            assert(comps@.map_values(|c: String| c@) =~= expected);
            assert forall|i: int| 0 <= i < expected.len() implies (i == 0 && (expected[i] == root_comp()
                || expected[i] == cur_comp())) || inner_comp(#[trigger] expected[i]) by {
                assert(expected[i] == self@[i]);
            }
        }
        Some(FsPath::normalized(comps))
    }

    fn is_last_root(&self) -> (r: bool)
        requires
            self@.len() > 0,
        ensures
            r == (self@.last() == root_comp()),
    {
        is_single_char(self.comps[self.comps.len() - 1].as_str(), '/')
    }

    /// The last component when it is a plain name.
    pub fn file_name(&self) -> (r: Option<String>)
        ensures
            match r {
                Some(name) => file_name_of(self@) == Some(name@),
                None => file_name_of(self@) is None,
            },
    {
        let m = self.comps.len();
        if m == 0 {
            return None;
        }
        let last = self.comps[m - 1].as_str();
        proof {
            use_type_invariant(self);
            assert(self@[m - 1] == last@);
        }
        if is_name(last) {
            Some(String::from_str(last))
        } else {
            None
        }
    }

    /// This path with its last component replaced by the plain name `name`.
    pub fn with_file_name(&self, name: &str) -> (r: FsPath)
        requires
            file_name_of(self@) is Some,
            name_comp(name@),
        ensures
            r@ == self@.drop_last().push(name@),
            r.display_text() == path_text(r@),
    {
        proof {
            use_type_invariant(self);
        }
        let m = self.comps.len();
        let mut comps: Vec<String> = Vec::new();
        for i in 0..m - 1
            invariant
                m == self.comps@.len(),
                m > 0,
                comps@.len() == i,
                forall|j: int| 0 <= j < i ==> #[trigger] comps@[j]@ == self.comps@[j]@,
        {
            comps.push(self.comps[i].clone());
        }
        comps.push(String::from_str(name));
        let ghost expected = self@.drop_last().push(name@);
        proof {
            assert(comps@.map_values(|c: String| c@) =~= expected);
            assert forall|i: int| 0 <= i < expected.len() implies (i == 0 && (expected[i] == root_comp()
                || expected[i] == cur_comp())) || inner_comp(#[trigger] expected[i]) by {
                if i < m - 1 {
                    assert(expected[i] == self@[i]);
                }
            }
        }
        FsPath::normalized(comps)
    }

    /// This path with the extension of its file name removed.
    pub fn strip_extension(&self) -> (r: FsPath)
        ensures
            r@ == strip_extension_comps(self@),
            r.display_text() == path_text(r@),
    {
        proof {
            use_type_invariant(self);
        }
        let m = self.comps.len();
        if m == 0 {
            return self.renormalized();
        }
        let name = self.comps[m - 1].as_str();
        assert(self@[m - 1] == name@);
        if !is_name(name) {
            return self.renormalized();
        }
        let d = match find_last_dot(name) {
            Some(d) => d,
            None => {
                return self.renormalized();
            },
        };
        if d == 0 {
            return self.renormalized();
        }
        proof {
            lemma_last_dot_range(name@);
        }
        let stem = name.substring_char(0, d);
        let ghost stem_v = file_stem(name@);
        assert(stem@ == stem_v);
        let mut comps: Vec<String> = Vec::new();
        for i in 0..m - 1
            invariant
                m == self.comps@.len(),
                m > 0,
                comps@.len() == i,
                forall|j: int| 0 <= j < i ==> #[trigger] comps@[j]@ == self.comps@[j]@,
        {
            comps.push(self.comps[i].clone());
        }
        let ghost expected = strip_extension_comps(self@);
        if is_single_char(stem, '.') {
            if m == 1 {
                comps.push(String::from_str(stem));
            }
        } else {
            comps.push(String::from_str(stem));
        }
        proof {
            lemma_stem_no_slash(name@);
            assert(comps@.map_values(|c: String| c@) =~= expected);
            assert forall|i: int| 0 <= i < expected.len() implies (i == 0 && (expected[i] == root_comp()
                || expected[i] == cur_comp())) || inner_comp(#[trigger] expected[i]) by {
                if i < m - 1 {
                    assert(expected[i] == self@[i]);
                }
            }
        }
        FsPath::normalized(comps)
    }

    /// The component at position `i`.
    pub fn component(&self, i: usize) -> (r: &str)
        requires
            i < self@.len(),
        ensures
            r@ == self@[i as int],
    {
        self.comps[i].as_str()
    }

    /// The number of components.
    pub fn len(&self) -> (n: usize)
        ensures
            n == self@.len(),
    {
        self.comps.len()
    }

    /// An equal copy.
    pub fn duplicate(&self) -> (r: FsPath)
        ensures
            r@ == self@,
            r.display_text() == self.display_text(),
    {
        proof {
            use_type_invariant(self);
        }
        let mut comps: Vec<String> = Vec::new();
        let n = self.comps.len();
        for i in 0..n
            invariant
                n == self.comps@.len(),
                comps@.len() == i,
                forall|j: int| 0 <= j < i ==> #[trigger] comps@[j]@ == self.comps@[j]@,
        {
            comps.push(self.comps[i].clone());
        }
        assert(comps@.map_values(|c: String| c@) =~= self@);
        FsPath { comps, shown: self.shown.clone() }
    }

    /// Whether two paths have the same components.
    pub fn same_as(&self, other: &FsPath) -> (r: bool)
        ensures
            r == (self@ == other@),
    {
        let n = self.comps.len();
        if n != other.comps.len() {
            assert(self@.len() != other@.len());
            return false;
        }
        for i in 0..n
            invariant
                n == self.comps@.len(),
                n == other.comps@.len(),
                forall|j: int| 0 <= j < i ==> self@[j] == other@[j],
        {
            if self.comps[i] != other.comps[i] {
                assert(self@[i as int] != other@[i as int]);
                return false;
            }
        }
        assert(self@ =~= other@);
        true
    }

    /// Whether the path starts at the root directory.
    pub fn is_absolute(&self) -> (r: bool)
        ensures
            r == is_abs(self@),
    {
        if self.comps.len() == 0 {
            return false;
        }
        is_single_char(self.comps[0].as_str(), '/')
    }
}

} // verus!

verus! {

/// Splitting at a `/` splits the two sides apart.
proof fn lemma_split_concat(a: Seq<char>, b: Seq<char>)
    ensures
        split_slash(a + seq!['/'] + b) == split_slash(a) + split_slash(b),
    decreases b.len(),
{
    let ab = a + seq!['/'] + b;
    if b.len() == 0 {
        assert(ab.drop_last() =~= a);
        assert(split_slash(a) + split_slash(b) =~= split_slash(a).push(Seq::<char>::empty()));
    } else {
        lemma_split_concat(a, b.drop_last());
        assert(ab.drop_last() =~= a + seq!['/'] + b.drop_last());
        let left = split_slash(a);
        let prev_b = split_slash(b.drop_last());
        lemma_split_pieces(b.drop_last());
        if b.last() == '/' {
            assert(split_slash(ab) =~= left + prev_b.push(Seq::<char>::empty()));
        } else {
            assert(split_slash(ab) =~= left + prev_b.update(
                prev_b.len() - 1,
                prev_b.last().push(b.last()),
            ));
        }
    }
}

/// A text without `/` is a single piece.
proof fn lemma_split_single(x: Seq<char>)
    requires
        !x.contains('/'),
    ensures
        split_slash(x) == seq![x],
    decreases x.len(),
{
    if x.len() > 0 {
        assert(!x.drop_last().contains('/')) by {
            if x.drop_last().contains('/') {
                let j = choose|j: int| 0 <= j < x.drop_last().len() && x.drop_last()[j] == '/';
                assert(x[j] == '/');
            }
        }
        lemma_split_single(x.drop_last());
        assert(x.last() != '/') by {
            assert(x[x.len() - 1] == x.last());
        }
        assert(x.drop_last().push(x.last()) =~= x);
    } else {
        assert(x =~= Seq::<char>::empty());
    }
}

/// Joining components without `/` and splitting again gives them back.
proof fn lemma_split_join(c: Seq<Seq<char>>)
    requires
        c.len() > 0,
        forall|i: int| 0 <= i < c.len() ==> !(#[trigger] c[i]).contains('/'),
    ensures
        split_slash(join_slash(c)) == c,
    decreases c.len(),
{
    if c.len() == 1 {
        lemma_split_single(c[0]);
        assert(c =~= seq![c[0]]);
    } else {
        let init = c.drop_last();
        assert forall|i: int| 0 <= i < init.len() implies !(#[trigger] init[i]).contains('/') by {
            assert(init[i] == c[i]);
        }
        lemma_split_join(init);
        lemma_split_concat(join_slash(init), c.last());
        assert(!c[c.len() - 1].contains('/'));
        lemma_split_single(c.last());
        assert(init + seq![c.last()] =~= c);
    }
}

/// The kept pieces of a concatenation.
proof fn lemma_keep_concat(a: Seq<Seq<char>>, b: Seq<Seq<char>>)
    ensures
        keep_pieces(a + b) == keep_pieces(a) + keep_pieces(b),
    decreases b.len(),
{
    if b.len() == 0 {
        assert(a + b =~= a);
        assert(keep_pieces(a) + keep_pieces(b) =~= keep_pieces(a));
    } else {
        lemma_keep_concat(a, b.drop_last());
        assert((a + b).drop_last() =~= a + b.drop_last());
        assert((a + b).last() == b.last());
        let piece = b.last();
        if piece.len() == 0 || piece == cur_comp() {
        } else {
            assert(keep_pieces(a) + keep_pieces(b.drop_last()).push(piece) =~= (keep_pieces(a)
                + keep_pieces(b.drop_last())).push(piece));
        }
    }
}

/// The kept pieces of a single piece.
proof fn lemma_keep_single(x: Seq<char>)
    ensures
        keep_pieces(seq![x]) == (if x.len() == 0 || x == cur_comp() {
            Seq::<Seq<char>>::empty()
        } else {
            seq![x]
        }),
{
    let one = seq![x];
    assert(one.drop_last() =~= Seq::<Seq<char>>::empty());
    assert(one.last() == x);
    assert(keep_pieces(Seq::<Seq<char>>::empty()) == Seq::<Seq<char>>::empty());
    assert(Seq::<Seq<char>>::empty().push(x) =~= seq![x]);
}

/// Inner components are all kept.
proof fn lemma_keep_inner(c: Seq<Seq<char>>)
    requires
        forall|i: int| 0 <= i < c.len() ==> inner_comp(#[trigger] c[i]),
    ensures
        keep_pieces(c) == c,
    decreases c.len(),
{
    if c.len() > 0 {
        let init = c.drop_last();
        assert forall|i: int| 0 <= i < init.len() implies inner_comp(#[trigger] init[i]) by {
            assert(init[i] == c[i]);
        }
        lemma_keep_inner(init);
        assert(inner_comp(c[c.len() - 1]));
        assert(init.push(c.last()) =~= c);
    }
}

/// The first character of joined components is the first character of the first one.
proof fn lemma_join_first(c: Seq<Seq<char>>)
    requires
        c.len() > 0,
        c[0].len() > 0,
    ensures
        join_slash(c).len() >= c[0].len(),
        join_slash(c)[0] == c[0][0],
    decreases c.len(),
{
    if c.len() > 1 {
        lemma_join_first(c.drop_last());
        assert(c.drop_last()[0] == c[0]);
    }
}

/// Extending a path that extends another extends that other.
pub proof fn lemma_prefix_trans(a: Comps, b: Comps, c: Comps)
    requires
        has_prefix(a, b),
        has_prefix(b, c),
    ensures
        has_prefix(a, c),
{
    assert(a.subrange(0, c.len() as int) =~= c) by {
        assert forall|i: int| 0 <= i < c.len() implies a.subrange(0, c.len() as int)[i] == c[i] by {
            assert(a.subrange(0, b.len() as int)[i] == a[i]);
            assert(b.subrange(0, c.len() as int)[i] == b[i]);
        }
    }
}

/// Every path extends itself.
pub proof fn lemma_prefix_refl(a: Comps)
    ensures
        has_prefix(a, a),
{
    assert(a.subrange(0, a.len() as int) =~= a);
}

/// Reading the text of a well-formed path gives the path back.
pub proof fn lemma_text_round_trip(p: Seq<Seq<char>>)
    requires
        comps_wf(p),
    ensures
        parse_text(path_text(p)) == p,
{
    let s = path_text(p);
    if is_abs(p) {
        let rest = p.drop_first();
        assert forall|i: int| 0 <= i < rest.len() implies inner_comp(#[trigger] rest[i]) by {
            assert(rest[i] == p[i + 1]);
        }
        assert(Seq::<char>::empty() + seq!['/'] + join_slash(rest) =~= s);
        lemma_split_concat(Seq::<char>::empty(), join_slash(rest));
        if rest.len() == 0 {
            assert(split_slash(join_slash(rest)) =~= seq![Seq::<char>::empty()]);
        } else {
            lemma_split_join(rest);
        }
        let pieces = split_slash(s);
        assert(split_slash(Seq::<char>::empty()) =~= seq![Seq::<char>::empty()]);
        lemma_keep_concat(seq![Seq::<char>::empty()], split_slash(join_slash(rest)));
        lemma_keep_single(Seq::<char>::empty());
        if rest.len() == 0 {
        } else {
            lemma_keep_inner(rest);
        }
        assert(s[0] == '/');
        assert(seq![root_comp()] + rest =~= p);
    } else if p.len() == 0 {
        assert(s =~= Seq::<char>::empty());
        lemma_keep_single(Seq::<char>::empty());
        assert(split_slash(s) == seq![Seq::<char>::empty()]);
        assert(parse_text(s) =~= p);
    } else {
        assert forall|i: int| 0 <= i < p.len() implies !(#[trigger] p[i]).contains('/') by {
            if i == 0 && p[0] == cur_comp() {
                assert(!cur_comp().contains('/')) by {
                    if cur_comp().contains('/') {
                        let j = choose|j: int| 0 <= j < cur_comp().len() && cur_comp()[j] == '/';
                    }
                }
            }
        }
        lemma_split_join(p);
        assert(p[0].len() > 0);
        lemma_join_first(p);
        assert(p[0][0] != '/') by {
            if p[0] != cur_comp() {
                assert(inner_comp(p[0]));
                assert(p[0].contains('/') || p[0][0] != '/');
            }
        }
        let rest = p.drop_first();
        assert forall|i: int| 0 <= i < rest.len() implies inner_comp(#[trigger] rest[i]) by {
            assert(rest[i] == p[i + 1]);
        }
        lemma_keep_inner(rest);
        lemma_keep_concat(seq![p[0]], rest);
        assert(seq![p[0]] + rest =~= p);
        if p[0] == cur_comp() {
            lemma_keep_single(p[0]);
            assert(seq![cur_comp()] + rest =~= p);
        } else {
            assert(inner_comp(p[0]));
            lemma_keep_single(p[0]);
            assert(Seq::<Seq<char>>::empty() + p =~= p);
        }
    }
}

} // verus!
