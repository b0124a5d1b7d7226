//! Matching a file name against a wildcard pattern: `*` stands for any run of
//! characters, `?` for one character, `[set]` for one character of the set and
//! `[!set]` for one character outside it. A name that begins with `.` is matched
//! only by a pattern that begins with `.`.
use vstd::prelude::*;
use vstd::string::*;

verus! {

/// A pattern holds a `[` that opens no well-formed class.
#[derive(Clone, Copy, Debug, PartialEq, Eq, Structural)]
pub enum GlobError {
    InvalidGlobPattern,
}

/// The first index `i` with `lo <= i < hi` at which `s` holds `c`.
pub open spec fn find(s: Seq<char>, c: char, lo: int, hi: int) -> Option<int>
    decreases hi - lo,
{
    if hi <= lo {
        None
    } else if s[lo] == c {
        Some(lo)
    } else {
        find(s, c, lo + 1, hi)
    }
}

/// Where the members of the class opened by `p[i] == '['` begin.
pub open spec fn class_start(p: Seq<char>, i: int) -> int {
    if i + 1 < p.len() && p[i + 1] == '!' {
        i + 2
    } else {
        i + 1
    }
}

/// The `]` that closes the class opened at `i`; a class has at least one member.
pub open spec fn class_end(p: Seq<char>, i: int) -> Option<int> {
    let s = class_start(p, i);
    match find(p, ']', s, p.len() as int) {
        Some(k) => if k > s {
            Some(k)
        } else {
            None
        },
        None => None,
    }
}

/// `c` is admitted by the class that opens at `i` and closes at `k`.
pub open spec fn in_class(p: Seq<char>, i: int, k: int, c: char) -> bool {
    listed(p, class_start(p, i), k, c) != (class_start(p, i) == i + 2)
}

/// `c` stands in `p` between `s` and `k`.
pub open spec fn listed(p: Seq<char>, s: int, k: int, c: char) -> bool {
    exists|j: int| s <= j < k && p[j] == c
}

/// Every `[` from index `i` on opens a well-formed class.
pub open spec fn valid_from(p: Seq<char>, i: int) -> bool
    decreases p.len() - i,
{
    if i >= p.len() {
        true
    } else if p[i] == '[' {
        match class_end(p, i) {
            Some(k) => if i <= k < p.len() {
                valid_from(p, k + 1)
            } else {
                false
            },
            None => false,
        }
    } else {
        valid_from(p, i + 1)
    }
}

/// The pattern from index `i` matches the name from index `j`.
pub open spec fn matches_from(p: Seq<char>, i: int, n: Seq<char>, j: int) -> bool
    decreases p.len() - i, n.len() - j,
{
    if i >= p.len() {
        j >= n.len()
    } else if p[i] == '*' {
        matches_from(p, i + 1, n, j) || (j < n.len() && matches_from(p, i, n, j + 1))
    } else if j >= n.len() {
        false
    } else if p[i] == '?' {
        matches_from(p, i + 1, n, j + 1)
    } else if p[i] == '[' {
        match class_end(p, i) {
            Some(k) => if i <= k < p.len() {
                if in_class(p, i, k, n[j]) {
                    matches_from(p, k + 1, n, j + 1)
                } else {
                    false
                }
            } else {
                false
            },
            None => false,
        }
    } else {
        p[i] == n[j] && matches_from(p, i + 1, n, j + 1)
    }
}

/// The pattern matches the whole name.
pub open spec fn glob_matches(p: Seq<char>, n: Seq<char>) -> bool {
    &&& (n.len() > 0 && n[0] == '.' ==> p.len() > 0 && p[0] == '.')
    &&& matches_from(p, 0, n, 0)
}

/// The token holds a wildcard character.
pub open spec fn has_wildcard(t: Seq<char>) -> bool {
    exists|i: int| 0 <= i < t.len() && (t[i] == '*' || t[i] == '?' || t[i] == '[')
}

fn chars_of(s: &str) -> (r: Vec<char>)
    ensures
        r@ == s@,
{
    let n = s.unicode_len();
    let mut out: Vec<char> = Vec::new();
    let mut i: usize = 0;
    while i < n
        invariant
            i <= n == s@.len(),
            out@ == s@.subrange(0, i as int),
        decreases n - i,
    {
        out.push(s.get_char(i));
        i = i + 1;
        assert(out@ =~= s@.subrange(0, i as int));
    }
    out
}

fn find_char(s: &Vec<char>, c: char, lo: usize) -> (r: Option<usize>)
    requires
        lo <= s@.len(),
    ensures
        match r {
            Some(k) => lo <= k < s@.len() && find(s@, c, lo as int, s@.len() as int) == Some(
                k as int,
            ),
            None => find(s@, c, lo as int, s@.len() as int) is None,
        },
{
    let mut i: usize = lo;
    while i < s.len()
        invariant
            lo <= i <= s@.len(),
            find(s@, c, lo as int, s@.len() as int) == find(s@, c, i as int, s@.len() as int),
        decreases s.len() - i,
    {
        if s[i] == c {
            return Some(i);
        }
        i = i + 1;
    }
    None
}

fn class_end_of(p: &Vec<char>, i: usize) -> (r: Option<usize>)
    requires
        i < p@.len(),
    ensures
        match r {
            Some(k) => class_start(p@, i as int) < k < p@.len() && class_end(p@, i as int) == Some(
                k as int,
            ),
            None => class_end(p@, i as int) is None,
        },
{
    let s: usize = if p.len() - i > 1 && p[i + 1] == '!' {
        i + 2
    } else {
        i + 1
    };
    match find_char(p, ']', s) {
        Some(k) => if k > s {
            Some(k)
        } else {
            None
        },
        None => None,
    }
}

fn in_class_of(p: &Vec<char>, i: usize, k: usize, c: char) -> (r: bool)
    requires
        i < p@.len(),
        class_start(p@, i as int) <= k <= p@.len(),
    ensures
        r == in_class(p@, i as int, k as int, c),
{
    let negated = p.len() - i > 1 && p[i + 1] == '!';
    let s: usize = if negated {
        i + 2
    } else {
        i + 1
    };
    let mut j: usize = s;
    while j < k
        invariant
            s == class_start(p@, i as int),
            negated == (s == i + 2),
            s <= j <= k <= p@.len(),
            forall|m: int| s <= m < j ==> p@[m] != c,
        decreases k - j,
    {
        if p[j] == c {
            assert(p@[j as int] == c);
            assert(listed(p@, s as int, k as int, c));
            return !negated;
        }
        j = j + 1;
    }
    assert(!listed(p@, s as int, k as int, c));
    negated
}

fn match_at(p: &Vec<char>, i: usize, n: &Vec<char>, j: usize) -> (r: bool)
    requires
        i <= p@.len(),
        j <= n@.len(),
    ensures
        r == matches_from(p@, i as int, n@, j as int),
    decreases p@.len() - i, n@.len() - j,
{
    if i >= p.len() {
        j >= n.len()
    } else if p[i] == '*' {
        match_at(p, i + 1, n, j) || (j < n.len() && match_at(p, i, n, j + 1))
    } else if j >= n.len() {
        false
    } else if p[i] == '?' {
        match_at(p, i + 1, n, j + 1)
    } else if p[i] == '[' {
        match class_end_of(p, i) {
            Some(k) => if in_class_of(p, i, k, n[j]) {
                match_at(p, k + 1, n, j + 1)
            } else {
                false
            },
            None => false,
        }
    } else {
        p[i] == n[j] && match_at(p, i + 1, n, j + 1)
    }
}

/// Whether the file name `name` matches `pattern`.
pub fn glob_match(pattern: &str, name: &str) -> (r: bool)
    ensures
        r == glob_matches(pattern@, name@),
{
    let p = chars_of(pattern);
    let n = chars_of(name);
    if n.len() > 0 && n[0] == '.' && !(p.len() > 0 && p[0] == '.') {
        return false;
    }
    match_at(&p, 0, &n, 0)
}

/// Whether `token` holds a wildcard character and is to be expanded.
pub fn is_glob(token: &str) -> (r: bool)
    ensures
        r == has_wildcard(token@),
{
    let t = chars_of(token);
    let mut i: usize = 0;
    while i < t.len()
        invariant
            i <= t@.len(),
            t@ == token@,
            forall|m: int| 0 <= m < i ==> t@[m] != '*' && t@[m] != '?' && t@[m] != '[',
        decreases t.len() - i,
    {
        if t[i] == '*' || t[i] == '?' || t[i] == '[' {
            return true;
        }
        i = i + 1;
    }
    false
}

/// Accepts a pattern whose classes are all well-formed.
pub fn check_glob(pattern: &str) -> (r: Result<(), GlobError>)
    ensures
        r is Ok <==> valid_from(pattern@, 0),
{
    let p = chars_of(pattern);
    let mut i: usize = 0;
    while i < p.len()
        invariant
            i <= p@.len(),
            p@ == pattern@,
            valid_from(p@, 0) == valid_from(p@, i as int),
        decreases p.len() - i,
    {
        if p[i] == '[' {
            match class_end_of(&p, i) {
                Some(k) => {
                    i = k + 1;
                },
                None => {
                    return Err(GlobError::InvalidGlobPattern);
                },
            }
        } else {
            i = i + 1;
        }
    }
    Ok(())
}

} // verus!
