//! What holds of the rewrites across two calls.
use vstd::prelude::*;
use crate::path::{ext_dot, extension, has_name, is_plain_ext, lemma_rfind, name_start, rfind, stem};
use crate::rewrite::{added, dotted, has_ext, normalized, removed, toggled, toggled_between};

verus! {

proof fn lemma_rfind_skip(s: Seq<char>, c: char, lo: int, mid: int, hi: int)
    requires
        lo <= mid <= hi,
        forall|j: int| mid <= j < hi ==> s[j] != c,
    ensures
        rfind(s, c, lo, hi) == rfind(s, c, lo, mid),
    decreases hi - mid,
{
    if hi > mid {
        lemma_rfind_skip(s, c, lo, mid, hi - 1);
    }
}

proof fn lemma_rfind_agree(s: Seq<char>, t: Seq<char>, c: char, lo: int, hi: int)
    requires
        forall|j: int| lo <= j < hi ==> s[j] == t[j],
    ensures
        rfind(s, c, lo, hi) == rfind(t, c, lo, hi),
    decreases hi - lo,
{
    if hi > lo {
        lemma_rfind_agree(s, t, c, lo, hi - 1);
    }
}

proof fn lemma_name_start_bounds(p: Seq<char>)
    ensures
        0 <= name_start(p) <= p.len(),
        forall|j: int| name_start(p) <= j < p.len() ==> p[j] != '/',
{
    lemma_rfind(p, '/', 0, p.len() as int);
}

/// Appending a dot and a plain extension to a path with a file name gives a path
/// whose extension is exactly that token and whose stem is the path itself.
pub proof fn lemma_dotted(p: Seq<char>, e: Seq<char>)
    requires
        has_name(p),
        is_plain_ext(e),
    ensures
        extension(dotted(p, e)) == Some(e),
        stem(dotted(p, e)) == p,
        has_ext(dotted(p, e), e),
{
    let q = dotted(p, e);
    let n = p.len() as int;
    assert(q.len() == n + 1 + e.len());
    assert(forall|j: int| 0 <= j < n ==> q[j] == p[j]);
    assert(q[n] == '.');
    assert(forall|j: int| n < j < q.len() ==> q[j] == e[j - n - 1]);
    lemma_name_start_bounds(p);
    lemma_rfind_skip(q, '/', 0, n, q.len() as int);
    lemma_rfind_agree(q, p, '/', 0, n);
    assert(name_start(q) == name_start(p));
    lemma_rfind_skip(q, '.', name_start(p) + 1, n + 1, q.len() as int);
    assert(ext_dot(q) == Some(n));
    assert(q.subrange(n + 1, q.len() as int) =~= e);
    assert(q.subrange(0, n) =~= p);
}

/// A path with an extension is its stem, a dot and that extension; the stem
/// still has a file name.
pub proof fn lemma_split(p: Seq<char>)
    requires
        extension(p) is Some,
    ensures
        p == dotted(stem(p), extension(p).unwrap()),
        has_name(stem(p)),
        name_start(stem(p)) == name_start(p),
{
    let d = ext_dot(p).unwrap();
    let s = stem(p);
    lemma_name_start_bounds(p);
    lemma_rfind(p, '.', name_start(p) + 1, p.len() as int);
    assert(p =~= dotted(p.subrange(0, d), p.subrange(d + 1, p.len() as int)));
    assert(forall|j: int| 0 <= j < d ==> s[j] == p[j]);
    lemma_rfind_skip(p, '/', 0, d, p.len() as int);
    lemma_rfind_agree(s, p, '/', 0, d);
}

/// Add without force is idempotent: a second call leaves the name the first gave.
pub proof fn lemma_add_idempotent(p: Seq<char>, e: Seq<char>)
    requires
        has_name(p),
        is_plain_ext(e),
    ensures
        added(added(p, e, false), e, false) == added(p, e, false),
{
    if !has_ext(p, e) {
        lemma_dotted(p, e);
    }
}

/// Toggling an extension that a file does not have, twice, gives back its name.
pub proof fn lemma_toggle_round_trip(p: Seq<char>, e: Seq<char>)
    requires
        has_name(p),
        is_plain_ext(e),
        !has_ext(p, e),
    ensures
        toggled(toggled(p, e), e) == p,
{
    lemma_dotted(p, e);
}

/// Toggling between `e1` and `e2` twice gives back a name whose extension was `e1`.
pub proof fn lemma_toggle_between_symmetric(p: Seq<char>, e1: Seq<char>, e2: Seq<char>)
    requires
        extension(p) == Some(e1),
        e1.len() > 0,
        e2.len() > 0,
        is_plain_ext(e2),
    ensures
        toggled_between(toggled_between(p, e1, e2), e1, e2) == p,
{
    lemma_split(p);
    lemma_dotted(stem(p), e2);
}

/// On a name without an extension, Remove undoes Add.
pub proof fn lemma_remove_undoes_add(p: Seq<char>, e: Seq<char>, force: bool)
    requires
        extension(p) is None,
        has_name(p),
        is_plain_ext(e),
    ensures
        removed(added(p, e, force), e) == p,
{
    lemma_dotted(p, e);
}

/// Normalizing a token twice is normalizing it once, for every token that does
/// not begin with two dots.
pub proof fn lemma_normalize_idempotent(t: Seq<char>)
    requires
        !(t.len() >= 2 && t[0] == '.' && t[1] == '.'),
    ensures
        normalized(normalized(t)) == normalized(t),
{
}

} // verus!
