//! The order of paths: components compared one by one, the root directory before a
//! leading `.`, before `..`, before plain names, and plain names by their characters.
use vstd::prelude::*;
use crate::path::{Comps, cur_comp, has_prefix, parent_comp, root_comp};

verus! {

/// `lt` is a strict total order.
pub open spec fn strict_total<T>(lt: spec_fn(T, T) -> bool) -> bool {
    &&& forall|x: T| !#[trigger] lt(x, x)
    &&& forall|x: T, y: T, z: T| #[trigger] lt(x, y) && #[trigger] lt(y, z) ==> lt(x, z)
    &&& forall|x: T, y: T| x != y ==> #[trigger] lt(x, y) || #[trigger] lt(y, x)
}

/// Sequences compared element by element; a proper prefix comes first.
pub open spec fn lex_lt<T>(a: Seq<T>, b: Seq<T>, lt: spec_fn(T, T) -> bool) -> bool
    decreases a.len(),
{
    if a.len() == 0 {
        b.len() > 0
    } else if b.len() == 0 {
        false
    } else if a[0] != b[0] {
        lt(a[0], b[0])
    } else {
        lex_lt(a.drop_first(), b.drop_first(), lt)
    }
}

/// The lexicographic order of a strict total order is a strict total order.
pub proof fn lemma_lex_strict_total<T>(lt: spec_fn(T, T) -> bool)
    requires
        strict_total(lt),
    ensures
        strict_total(|a: Seq<T>, b: Seq<T>| lex_lt(a, b, lt)),
{
    let l = |a: Seq<T>, b: Seq<T>| lex_lt(a, b, lt);
    assert forall|x: Seq<T>| !#[trigger] l(x, x) by {
        lemma_lex_irrefl(x, lt);
    }
    assert forall|x: Seq<T>, y: Seq<T>, z: Seq<T>| #[trigger] l(x, y) && #[trigger] l(y, z) implies l(x, z) by {
        lemma_lex_trans(x, y, z, lt);
    }
    assert forall|x: Seq<T>, y: Seq<T>| x != y implies #[trigger] l(x, y) || #[trigger] l(y, x) by {
        lemma_lex_total(x, y, lt);
    }
}

proof fn lemma_lex_irrefl<T>(a: Seq<T>, lt: spec_fn(T, T) -> bool)
    ensures
        !lex_lt(a, a, lt),
    decreases a.len(),
{
    if a.len() > 0 {
        lemma_lex_irrefl(a.drop_first(), lt);
    }
}

proof fn lemma_lex_trans<T>(a: Seq<T>, b: Seq<T>, c: Seq<T>, lt: spec_fn(T, T) -> bool)
    requires
        strict_total(lt),
        lex_lt(a, b, lt),
        lex_lt(b, c, lt),
    ensures
        lex_lt(a, c, lt),
    decreases a.len(),
{
    if a.len() > 0 && b.len() > 0 && c.len() > 0 {
        if a[0] == b[0] && b[0] == c[0] {
            lemma_lex_trans(a.drop_first(), b.drop_first(), c.drop_first(), lt);
        } else if a[0] != b[0] && b[0] != c[0] {
            assert(lt(a[0], b[0]) && lt(b[0], c[0]));
            assert(lt(a[0], c[0]));
            assert(a[0] != c[0]);
        }
    }
}

proof fn lemma_lex_total<T>(a: Seq<T>, b: Seq<T>, lt: spec_fn(T, T) -> bool)
    requires
        strict_total(lt),
        a != b,
    ensures
        lex_lt(a, b, lt) || lex_lt(b, a, lt),
    decreases a.len(),
{
    if a.len() == 0 {
        assert(b.len() > 0) by {
            if b.len() == 0 {
                assert(a =~= b);
            }
        }
    } else if b.len() == 0 {
    } else if a[0] != b[0] {
        assert(lt(a[0], b[0]) || lt(b[0], a[0]));
    } else {
        assert(a.drop_first() != b.drop_first()) by {
            if a.drop_first() == b.drop_first() {
                assert(a.len() == b.len()) by {
                    assert(a.drop_first().len() == b.drop_first().len());
                }
                assert(a =~= b) by {
                    assert forall|i: int| 0 <= i < a.len() implies a[i] == b[i] by {
                        if i > 0 {
                            assert(a[i] == a.drop_first()[i - 1]);
                            assert(b[i] == b.drop_first()[i - 1]);
                        }
                    }
                }
            }
        }
        lemma_lex_total(a.drop_first(), b.drop_first(), lt);
    }
}

/// A proper prefix comes first.
pub proof fn lemma_lex_prefix<T>(a: Seq<T>, b: Seq<T>, lt: spec_fn(T, T) -> bool)
    requires
        a.len() < b.len(),
        b.subrange(0, a.len() as int) == a,
    ensures
        lex_lt(a, b, lt),
    decreases a.len(),
{
    if a.len() > 0 {
        assert(b[0] == a[0]) by {
            assert(b.subrange(0, a.len() as int)[0] == b[0]);
        }
        assert(b.drop_first().subrange(0, a.drop_first().len() as int) =~= a.drop_first()) by {
            assert forall|i: int| 0 <= i < a.len() - 1 implies b.drop_first()[i] == a.drop_first()[i] by {
                assert(b.subrange(0, a.len() as int)[i + 1] == b[i + 1]);
            }
        }
        lemma_lex_prefix(a.drop_first(), b.drop_first(), lt);
    }
}

/// Whatever lies between a sequence and one of its extensions extends it too.
pub proof fn lemma_lex_between<T>(a: Seq<T>, b: Seq<T>, c: Seq<T>, lt: spec_fn(T, T) -> bool)
    requires
        strict_total(lt),
        a.len() <= c.len(),
        c.subrange(0, a.len() as int) == a,
        !lex_lt(b, a, lt),
        !lex_lt(c, b, lt),
    ensures
        a.len() <= b.len(),
        b.subrange(0, a.len() as int) == a,
    decreases a.len(),
{
    if a.len() == 0 {
        assert(b.subrange(0, 0) =~= a);
    } else {
        assert(c[0] == a[0]) by {
            assert(c.subrange(0, a.len() as int)[0] == c[0]);
        }
        if b.len() == 0 {
            assert(lex_lt(b, a, lt));
        }
        if b[0] != a[0] {
            assert(lt(a[0], b[0]) || lt(b[0], a[0]));
            if lt(a[0], b[0]) {
                assert(lex_lt(c, b, lt));
            } else {
                assert(lex_lt(b, a, lt));
            }
        }
        assert(c.drop_first().subrange(0, a.drop_first().len() as int) =~= a.drop_first()) by {
            assert forall|i: int| 0 <= i < a.len() - 1 implies c.drop_first()[i] == a.drop_first()[i] by {
                assert(c.subrange(0, a.len() as int)[i + 1] == c[i + 1]);
            }
        }
        lemma_lex_between(a.drop_first(), b.drop_first(), c.drop_first(), lt);
        assert(b.subrange(0, a.len() as int) =~= a) by {
            assert forall|i: int| 0 <= i < a.len() implies b.subrange(0, a.len() as int)[i] == a[i] by {
                if i > 0 {
                    assert(b.drop_first().subrange(0, a.drop_first().len() as int)[i - 1] == b[i]);
                    assert(a.drop_first()[i - 1] == a[i]);
                }
            }
        }
    }
}

/// Characters ordered by their code points.
pub open spec fn char_lt(x: char, y: char) -> bool {
    (x as int) < (y as int)
}

/// The character order as a function value.
pub open spec fn char_order() -> spec_fn(char, char) -> bool {
    |x: char, y: char| char_lt(x, y)
}

/// Texts ordered by their characters.
pub open spec fn text_lt(a: Seq<char>, b: Seq<char>) -> bool {
    lex_lt(a, b, char_order())
}

/// The kind of a component: root directory, current directory, parent directory, name.
pub open spec fn comp_rank(c: Seq<char>) -> int {
    if c == root_comp() {
        0
    } else if c == cur_comp() {
        1
    } else if c == parent_comp() {
        2
    } else {
        3
    }
}

/// Components ordered by kind, names by their text.
pub open spec fn comp_lt(a: Seq<char>, b: Seq<char>) -> bool {
    comp_rank(a) < comp_rank(b) || (comp_rank(a) == 3 && comp_rank(b) == 3 && text_lt(a, b))
}

/// The component order as a function value.
pub open spec fn comp_order() -> spec_fn(Seq<char>, Seq<char>) -> bool {
    |x: Seq<char>, y: Seq<char>| comp_lt(x, y)
}

/// Paths ordered by their components.
pub open spec fn path_lt(a: Comps, b: Comps) -> bool {
    lex_lt(a, b, comp_order())
}

/// The component order is a strict total order.
pub proof fn lemma_comp_strict_total()
    ensures
        strict_total(comp_order()),
{
    let cl = char_order();
    assert(strict_total(cl)) by {
        assert forall|x: char, y: char| x != y implies #[trigger] cl(x, y) || #[trigger] cl(y, x) by {
            if (x as int) == (y as int) {
                assert(x == y);
            }
        }
    }
    lemma_lex_strict_total(cl);
    let tl = |a: Seq<char>, b: Seq<char>| lex_lt(a, b, cl);
    let l = comp_order();
    assert forall|x: Seq<char>| !#[trigger] l(x, x) by {
        assert(!tl(x, x));
    }
    assert forall|x: Seq<char>, y: Seq<char>, z: Seq<char>| #[trigger] l(x, y) && #[trigger] l(y, z) implies l(x, z) by {
        if comp_rank(x) == 3 && comp_rank(y) == 3 && comp_rank(z) == 3 {
            assert(tl(x, y) && tl(y, z));
        }
    }
    assert forall|x: Seq<char>, y: Seq<char>| x != y implies #[trigger] l(x, y) || #[trigger] l(y, x) by {
        if comp_rank(x) == comp_rank(y) && comp_rank(x) < 3 {
            assert(x == y);
        }
        if comp_rank(x) == 3 && comp_rank(y) == 3 {
            assert(tl(x, y) || tl(y, x));
        }
    }
}

/// The character order is a strict total order.
proof fn lemma_char_strict_total()
    ensures
        strict_total(char_order()),
{
    let cl = char_order();
    assert forall|x: char, y: char| x != y implies #[trigger] cl(x, y) || #[trigger] cl(y, x) by {
        if (x as int) == (y as int) {
            assert(x == y);
        }
    }
}

/// No text comes before itself.
pub proof fn lemma_text_irrefl(a: Seq<char>)
    ensures
        !text_lt(a, a),
{
    lemma_lex_irrefl(a, char_order());
}

/// The text order is transitive.
pub proof fn lemma_text_trans(a: Seq<char>, b: Seq<char>, c: Seq<char>)
    requires
        text_lt(a, b),
        text_lt(b, c),
    ensures
        text_lt(a, c),
{
    lemma_char_strict_total();
    lemma_lex_trans(a, b, c, char_order());
}

/// Of two different texts, one comes first.
pub proof fn lemma_text_total(a: Seq<char>, b: Seq<char>)
    requires
        a != b,
    ensures
        text_lt(a, b) || text_lt(b, a),
{
    lemma_char_strict_total();
    lemma_lex_total(a, b, char_order());
}

/// No path comes before itself.
pub proof fn lemma_path_irrefl(a: Comps)
    ensures
        !path_lt(a, a),
{
    lemma_lex_irrefl(a, comp_order());
}

/// The path order is transitive.
pub proof fn lemma_path_trans(a: Comps, b: Comps, c: Comps)
    requires
        path_lt(a, b),
        path_lt(b, c),
    ensures
        path_lt(a, c),
{
    lemma_comp_strict_total();
    lemma_lex_trans(a, b, c, comp_order());
}

/// Of two different paths, one comes first.
pub proof fn lemma_path_total(a: Comps, b: Comps)
    requires
        a != b,
    ensures
        path_lt(a, b) || path_lt(b, a),
{
    lemma_comp_strict_total();
    lemma_lex_total(a, b, comp_order());
}

/// A path lies between one of its prefixes and itself only if it extends that prefix.
pub proof fn lemma_path_between(a: Comps, b: Comps, c: Comps)
    requires
        has_prefix(c, a),
        !path_lt(b, a),
        !path_lt(c, b),
    ensures
        has_prefix(b, a),
{
    lemma_comp_strict_total();
    lemma_lex_between(a, b, c, comp_order());
}

/// A proper prefix of a path comes before it.
pub proof fn lemma_path_prefix(a: Comps, b: Comps)
    requires
        has_prefix(b, a),
        a != b,
    ensures
        path_lt(a, b),
{
    if a.len() == b.len() {
        assert(b.subrange(0, a.len() as int) =~= b);
    }
    lemma_lex_prefix(a, b, comp_order());
}

} // verus!
