//! Splitting a path into its stem and its extension.
use vstd::prelude::*;
use vstd::string::*;

verus! {

/// The last index `i` with `lo <= i < hi` at which `s` holds `c`.
pub open spec fn rfind(s: Seq<char>, c: char, lo: int, hi: int) -> Option<int>
    decreases hi - lo,
{
    if hi <= lo {
        None
    } else if s[hi - 1] == c {
        Some(hi - 1)
    } else {
        rfind(s, c, lo, hi - 1)
    }
}

/// Where the last segment of a path (its file name) begins.
pub open spec fn name_start(p: Seq<char>) -> int {
    match rfind(p, '/', 0, p.len() as int) {
        Some(i) => i + 1,
        None => 0,
    }
}

/// The position of the dot that opens the extension: the last `.` of the file
/// name, unless it is the name's first character (a hidden file such as `.profile`).
pub open spec fn ext_dot(p: Seq<char>) -> Option<int> {
    rfind(p, '.', name_start(p) + 1, p.len() as int)
}

/// The extension of a path: what follows the dot that opens it, if there is one.
pub open spec fn extension(p: Seq<char>) -> Option<Seq<char>> {
    match ext_dot(p) {
        Some(d) => Some(p.subrange(d + 1, p.len() as int)),
        None => None,
    }
}

/// The path without its extension and the dot before it.
pub open spec fn stem(p: Seq<char>) -> Seq<char> {
    match ext_dot(p) {
        Some(d) => p.subrange(0, d),
        None => p,
    }
}

/// The path's last segment is not empty.
pub open spec fn has_name(p: Seq<char>) -> bool {
    name_start(p) < p.len()
}

/// An extension token that holds neither a dot nor a separator, so that once
/// appended it is the whole extension of the new name.
pub open spec fn is_plain_ext(e: Seq<char>) -> bool {
    forall|i: int| 0 <= i < e.len() ==> e[i] != '.' && e[i] != '/'
}

/// Stated facts about `rfind`: what it finds holds `c`, and nothing after it does.
pub proof fn lemma_rfind(s: Seq<char>, c: char, lo: int, hi: int)
    requires
        0 <= lo,
        hi <= s.len(),
    ensures
        match rfind(s, c, lo, hi) {
            Some(i) => lo <= i < hi && s[i] == c && forall|j: int| i < j < hi ==> s[j] != c,
            None => forall|j: int| lo <= j < hi ==> s[j] != c,
        },
    decreases hi - lo,
{
    if hi > lo && s[hi - 1] != c {
        lemma_rfind(s, c, lo, hi - 1);
    }
}

fn rfind_char(s: &str, c: char, lo: usize, hi: usize) -> (r: Option<usize>)
    requires
        lo <= hi <= s@.len(),
    ensures
        match r {
            Some(i) => lo <= i < hi && rfind(s@, c, lo as int, hi as int) == Some(i as int),
            None => rfind(s@, c, lo as int, hi as int) is None,
        },
{
    proof {
        lemma_rfind(s@, c, lo as int, hi as int);
    }
    let mut i: usize = hi;
    while i > lo
        invariant
            lo <= i <= hi <= s@.len(),
            rfind(s@, c, lo as int, hi as int) == rfind(s@, c, lo as int, i as int),
        decreases i,
    {
        if s.get_char(i - 1) == c {
            return Some(i - 1);
        }
        i = i - 1;
    }
    None
}

/// Where the file name of `path` begins, as a character index.
pub fn file_name_start(path: &str) -> (r: usize)
    ensures
        r == name_start(path@),
{
    let n = path.unicode_len();
    match rfind_char(path, '/', 0, n) {
        Some(i) => i + 1,
        None => 0,
    }
}

/// `path` cut where its file name begins: the directory part, with its
/// trailing separator, and the file name.
pub fn split_file_name(path: &str) -> (r: (String, String))
    ensures
        r.0@ + r.1@ == path@,
        r.0@ == path@.subrange(0, name_start(path@)),
        r.1@ == path@.subrange(name_start(path@), path@.len() as int),
{
    let n = path.unicode_len();
    let start = file_name_start(path);
    proof {
        lemma_rfind(path@, '/', 0, n as int);
    }
    let dir = path.substring_char(0, start).to_owned();
    let name = path.substring_char(start, n).to_owned();
    assert(dir@ + name@ =~= path@);
    (dir, name)
}

fn ext_dot_of(path: &str) -> (r: Option<usize>)
    ensures
        match r {
            Some(d) => d < path@.len() && ext_dot(path@) == Some(d as int),
            None => ext_dot(path@) is None,
        },
{
    let n = path.unicode_len();
    let start = file_name_start(path);
    if start >= n {
        return None;
    }
    rfind_char(path, '.', start + 1, n)
}

/// The extension of `path`, or `None` where its file name has none.
pub fn extension_of(path: &str) -> (r: Option<String>)
    ensures
        match r {
            Some(e) => extension(path@) == Some(e@),
            None => extension(path@) is None,
        },
{
    match ext_dot_of(path) {
        Some(d) => {
            let n = path.unicode_len();
            Some(path.substring_char(d + 1, n).to_owned())
        },
        None => None,
    }
}

/// `path` without its extension.
pub fn stem_of(path: &str) -> (r: String)
    ensures
        r@ == stem(path@),
{
    match ext_dot_of(path) {
        Some(d) => path.substring_char(0, d).to_owned(),
        None => path.to_owned(),
    }
}

} // verus!
