//! What the tool shows: paths below the home directory shortened to `~`, and the
//! mappings as rows ordered by the text each mapped path is shown by.
use vstd::prelude::*;
use crate::collections::PathMap;
use crate::order::{lemma_text_irrefl, lemma_text_trans, text_lt};
use crate::path::{Comps, FsPath};
use crate::watch::{text_eq, text_less};

verus! {

/// A path text with the home directory shortened to `~`: the home directory itself
/// becomes `~`, a path below it `~` followed by the rest; other texts stay as they are.
pub open spec fn home_shorten_spec(s: Seq<char>, home: Option<Seq<char>>) -> Seq<char> {
    match home {
        None => s,
        Some(h) => if s == h {
            seq!['~']
        } else if h.len() + 1 <= s.len() && s.subrange(0, h.len() + 1int) == h.push('/') {
            seq!['~'] + s.skip(h.len() as int)
        } else {
            s
        },
    }
}

/// The text of the home directory, where there is one.
pub open spec fn home_view(home: Option<&str>) -> Option<Seq<char>> {
    match home {
        Some(h) => Some(h@),
        None => None,
    }
}

/// Whether `s` starts with `h` followed by `/`.
fn starts_with_dir(s: &str, h: &str) -> (r: bool)
    ensures
        r == (h@.len() + 1 <= s@.len() && s@.subrange(0, h@.len() + 1int) == h@.push('/')),
{
    let n = h.unicode_len();
    let m = s.unicode_len();
    if n >= m {
        return false;
    }
    for i in 0..n
        invariant
            n == h@.len(),
            m == s@.len(),
            n + 1 <= m,
            forall|j: int| 0 <= j < i ==> s@[j] == h@[j],
    {
        if s.get_char(i) != h.get_char(i) {
            assert(s@.subrange(0, n + 1)[i as int] != h@.push('/')[i as int]);
            return false;
        }
    }
    if s.get_char(n) != '/' {
        assert(s@.subrange(0, n + 1)[n as int] != h@.push('/')[n as int]);
        return false;
    }
    assert(s@.subrange(0, n + 1) =~= h@.push('/'));
    true
}

/// A path text with the home directory shortened to `~`.
pub fn home_shorten(s: &str, home: Option<&str>) -> (r: String)
    ensures
        r@ == home_shorten_spec(s@, home_view(home)),
{
    match home {
        None => String::from_str(s),
        Some(h) => {
            if text_eq(s, h) {
                let r = String::from_str("~");
                proof {
                    reveal_strlit("~");
                    assert(r@ =~= seq!['~']);
                }
                r
            } else if starts_with_dir(s, h) {
                let mut r = String::from_str("~");
                let rest = s.substring_char(h.unicode_len(), s.unicode_len());
                r.append(rest);
                proof {
                    reveal_strlit("~");
                    assert(r@ =~= seq!['~'] + s@.skip(h@.len() as int));
                }
                r
            } else {
                String::from_str(s)
            }
        },
    }
}

/// One shown mapping: the mapped path, and the texts shown for it and for its source.
#[derive(Debug)]
pub struct MappingRow {
    /// The mapped path.
    pub path: FsPath,
    /// The shortened text of the mapped path.
    pub shown_path: String,
    /// The shortened text of the source.
    pub shown_source: String,
}

/// The number of bytes of a text, as the machine counts it.
pub open spec fn byte_len(s: Seq<char>) -> usize {
    vstd::utf8::encode_utf8(s).len() as usize
}

/// The rows for a map of mappings, ordered by the texts the mapped paths are shown by,
/// with the width of the widest shown mapped path in bytes.
pub fn mapping_rows(mappings: &PathMap, home: Option<&str>) -> (r: (Vec<MappingRow>, usize))
    ensures
        r.0@.len() == mappings@.dom().len(),
        forall|i: int| 0 <= i < r.0@.len() ==> mappings@.contains_key((#[trigger] r.0@[i]).path@),
        forall|i: int| 0 <= i < r.0@.len() ==> (#[trigger] r.0@[i]).shown_path@ == home_shorten_spec(mappings.shown()[r.0@[i].path@].0, home_view(home)),
        forall|i: int| 0 <= i < r.0@.len() ==> (#[trigger] r.0@[i]).shown_source@ == home_shorten_spec(mappings.shown()[r.0@[i].path@].1, home_view(home)),
        forall|k: Comps| #[trigger] mappings@.contains_key(k) ==> exists|i: int| 0 <= i < r.0@.len() && (#[trigger] r.0@[i]).path@ == k,
        forall|i: int, j: int| 0 <= i < j < r.0@.len() ==> !text_lt(mappings.shown()[(#[trigger] r.0@[j]).path@].0, mappings.shown()[(#[trigger] r.0@[i]).path@].0),
        forall|i: int| 0 <= i < r.0@.len() ==> byte_len((#[trigger] r.0@[i]).shown_path@) <= r.1,
        r.0@.len() == 0 ==> r.1 == 0,
        r.0@.len() > 0 ==> exists|i: int| 0 <= i < r.0@.len() && byte_len((#[trigger] r.0@[i]).shown_path@) == r.1,
{
    let ghost hv = home_view(home);
    let (ks, vs) = mappings.to_entries();
    let n = ks.len();
    proof {
        crate::collections::lemma_assoc_len(ks@, vs@);
    }
    let mut rows: Vec<MappingRow> = Vec::new();
    let mut keys: Vec<String> = Vec::new();
    let ghost mut src: Seq<int> = Seq::empty();
    for i in 0..n
        invariant
            n == ks@.len(),
            ks@.len() == vs@.len(),
            crate::collections::vec_distinct(ks@),
            forall|j: int| 0 <= j < ks@.len() ==> mappings@.contains_key((#[trigger] ks@[j])@) && mappings@[ks@[j]@] == vs@[j]@,
            forall|j: int| 0 <= j < ks@.len() ==> mappings.shown()[(#[trigger] ks@[j])@] == (ks@[j].display_text(), vs@[j].display_text()),
            hv == home_view(home),
            rows@.len() == i,
            keys@.len() == i,
            src.len() == i,
            forall|t: int| 0 <= t < i ==> 0 <= #[trigger] src[t] < i,
            forall|t: int, u: int| 0 <= t < i && 0 <= u < i && t != u ==> #[trigger] src[t] != #[trigger] src[u],
            forall|t: int| 0 <= t < i ==> (#[trigger] rows@[t]).path@ == ks@[src[t]]@ && keys@[t]@ == ks@[src[t]].display_text()
                && rows@[t].shown_path@ == home_shorten_spec(ks@[src[t]].display_text(), hv)
                && rows@[t].shown_source@ == home_shorten_spec(vs@[src[t]].display_text(), hv),
            forall|a: int, b: int| 0 <= a < b < i ==> !text_lt((#[trigger] keys@[b])@, (#[trigger] keys@[a])@),
    {
        let text = String::from_str(ks[i].display());
        let shown_path = home_shorten(text.as_str(), home);
        let shown_source = home_shorten(vs[i].display(), home);
        let mut pos: usize = 0;
        while pos < keys.len() && !text_less(text.as_str(), keys[pos].as_str())
            invariant
                pos <= keys@.len(),
                forall|j: int| 0 <= j < pos ==> !text_lt(text@, (#[trigger] keys@[j])@),
            decreases keys@.len() - pos,
        {
            pos = pos + 1;
        }
        let ghost old_keys = keys@;
        let ghost old_rows = rows@;
        let ghost old_src = src;
        keys.insert(pos, text);
        rows.insert(pos, MappingRow { path: ks[i].duplicate(), shown_path, shown_source });
        proof {
            src = old_src.insert(pos as int, i as int);
            assert forall|t: int| 0 <= t < i + 1 implies 0 <= #[trigger] src[t] < i + 1 by {
                if t < pos {
                    assert(src[t] == old_src[t]);
                } else if t > pos {
                    assert(src[t] == old_src[t - 1]);
                }
            }
            assert forall|t: int, u: int| 0 <= t < i + 1 && 0 <= u < i + 1 && t != u implies #[trigger] src[t] != #[trigger] src[u] by {
                let ot = if t < pos { t } else { t - 1 };
                let ou = if u < pos { u } else { u - 1 };
                if t != pos && u != pos {
                    assert(src[t] == old_src[ot] && src[u] == old_src[ou]);
                } else if t == pos {
                    assert(src[u] == old_src[ou]);
                } else {
                    assert(src[t] == old_src[ot]);
                }
            }
            assert forall|t: int| 0 <= t < i + 1 implies (#[trigger] rows@[t]).path@ == ks@[src[t]]@ && keys@[t]@ == ks@[src[t]].display_text()
                && rows@[t].shown_path@ == home_shorten_spec(ks@[src[t]].display_text(), hv)
                && rows@[t].shown_source@ == home_shorten_spec(vs@[src[t]].display_text(), hv) by {
                if t < pos {
                    assert(rows@[t] == old_rows[t] && keys@[t] == old_keys[t] && src[t] == old_src[t]);
                } else if t > pos {
                    assert(rows@[t] == old_rows[t - 1] && keys@[t] == old_keys[t - 1] && src[t] == old_src[t - 1]);
                }
            }
            assert forall|a: int, b: int| 0 <= a < b < i + 1 implies !text_lt((#[trigger] keys@[b])@, (#[trigger] keys@[a])@) by {
                if b < pos {
                    assert(keys@[a] == old_keys[a] && keys@[b] == old_keys[b]);
                } else if a > pos {
                    assert(keys@[a] == old_keys[a - 1] && keys@[b] == old_keys[b - 1]);
                } else if b == pos {
                    assert(keys@[a] == old_keys[a]);
                } else if a == pos {
                    assert(keys@[b] == old_keys[b - 1]);
                    assert(text_lt(text@, old_keys[pos as int]@));
                    if text_lt(old_keys[b - 1]@, text@) {
                        lemma_text_trans(old_keys[b - 1]@, text@, old_keys[pos as int]@);
                        if b - 1 > pos {
                            assert(!text_lt(old_keys[b - 1]@, old_keys[pos as int]@));
                        } else {
                            lemma_text_irrefl(old_keys[pos as int]@);
                        }
                    }
                } else {
                    assert(keys@[a] == old_keys[a] && keys@[b] == old_keys[b - 1]);
                }
            }
        }
    }
    let mut width: usize = 0;
    let ghost mut widest: int = -1;
    for i in 0..n
        invariant
            n == rows@.len(),
            forall|j: int| 0 <= j < i ==> byte_len((#[trigger] rows@[j]).shown_path@) <= width,
            i == 0 ==> width == 0,
            i > 0 ==> 0 <= widest < i && byte_len(rows@[widest].shown_path@) == width,
    {
        let l = rows[i].shown_path.as_str().len();
        if i == 0 || l > width {
            width = l;
            proof {
                widest = i as int;
            }
        }
    }
    proof {
        let rows_v = rows@;
        assert forall|k: Comps| #[trigger] mappings@.contains_key(k) implies exists|i: int| 0 <= i < rows_v.len() && (#[trigger] rows_v[i]).path@ == k by {
            let j = crate::collections::key_index(ks@, k);
            assert(crate::collections::vec_has(ks@, k));
            // `src` is a permutation of the positions
            crate::collections::lemma_injective_onto(src, n as int, j);
            let t = choose|t: int| 0 <= t < n && src[t] == j;
            assert(rows_v[t].path@ == k);
        }
        assert forall|i: int| 0 <= i < rows_v.len() implies {
            &&& mappings@.contains_key((#[trigger] rows_v[i]).path@)
            &&& rows_v[i].shown_path@ == home_shorten_spec(mappings.shown()[rows_v[i].path@].0, hv)
            &&& rows_v[i].shown_source@ == home_shorten_spec(mappings.shown()[rows_v[i].path@].1, hv)
        } by {
            assert(mappings@[ks@[src[i]]@] == vs@[src[i]]@);
            assert(mappings.shown()[ks@[src[i]]@] == (ks@[src[i]].display_text(), vs@[src[i]].display_text()));
        }
        assert forall|a: int, b: int| 0 <= a < b < rows_v.len() implies !text_lt(mappings.shown()[(#[trigger] rows_v[b]).path@].0, mappings.shown()[(#[trigger] rows_v[a]).path@].0) by {
            assert(mappings.shown()[ks@[src[a]]@] == (ks@[src[a]].display_text(), vs@[src[a]].display_text()));
            assert(mappings.shown()[ks@[src[b]]@] == (ks@[src[b]].display_text(), vs@[src[b]].display_text()));
        }
        if n > 0 {
            assert(byte_len(rows_v[widest].shown_path@) == width);
        }
    }
    (rows, width)
}

} // verus!
