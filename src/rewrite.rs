//! The new name of a file under each of the five extension operations.
use vstd::prelude::*;
use vstd::string::*;
use crate::path::{extension, extension_of, stem, stem_of};

verus! {

/// A user-supplied extension token without the one leading `.` it may carry.
pub open spec fn normalized(t: Seq<char>) -> Seq<char> {
    if t.len() > 0 && t[0] == '.' {
        t.subrange(1, t.len() as int)
    } else {
        t
    }
}

/// The path's extension is `e`; an empty `e` stands for no extension at all.
pub open spec fn has_ext(p: Seq<char>, e: Seq<char>) -> bool {
    match extension(p) {
        Some(c) => c == e,
        None => e.len() == 0,
    }
}

/// `p` followed by a dot and `e`.
pub open spec fn dotted(p: Seq<char>, e: Seq<char>) -> Seq<char> {
    p + seq!['.'] + e
}

/// Add: append a dot and `e`, unless, without `force`, `e` already is the
/// extension (an empty `e` is the extension of a name without one).
pub open spec fn added(p: Seq<char>, e: Seq<char>, force: bool) -> Seq<char> {
    if !force && has_ext(p, e) {
        p
    } else {
        dotted(p, e)
    }
}

/// Remove: strip the extension where it is `e`, or any extension where `e` is empty.
pub open spec fn removed(p: Seq<char>, e: Seq<char>) -> Seq<char> {
    if e.len() == 0 || has_ext(p, e) {
        stem(p)
    } else {
        p
    }
}

/// Set: replace the extension by `e`, or drop it where `e` is empty.
pub open spec fn with_ext(p: Seq<char>, e: Seq<char>) -> Seq<char> {
    if e.len() == 0 {
        stem(p)
    } else {
        dotted(stem(p), e)
    }
}

/// Toggle: drop the extension where it is `e`, else add `e`.
pub open spec fn toggled(p: Seq<char>, e: Seq<char>) -> Seq<char> {
    if has_ext(p, e) {
        stem(p)
    } else {
        added(p, e, false)
    }
}

/// Toggle between: an extension `e1` becomes `e2` and `e2` becomes `e1`;
/// any other name stays.
pub open spec fn toggled_between(p: Seq<char>, e1: Seq<char>, e2: Seq<char>) -> Seq<char> {
    if has_ext(p, e1) {
        with_ext(p, e2)
    } else if has_ext(p, e2) {
        with_ext(p, e1)
    } else {
        p
    }
}

/// Strips one leading `.` from an extension token, so that `.txt` and `txt` agree.
pub fn normalize(token: &str) -> (r: String)
    ensures
        r@ == normalized(token@),
{
    let n = token.unicode_len();
    if n > 0 && token.get_char(0) == '.' {
        token.substring_char(1, n).to_owned()
    } else {
        token.to_owned()
    }
}

/// Whether the extension of `path` is `ext` (an empty `ext`: whether it has none).
pub fn has_extension(path: &str, ext: &str) -> (r: bool)
    ensures
        r == has_ext(path@, ext@),
{
    match extension_of(path) {
        Some(c) => {
            let e: String = ext.to_owned();
            c == e
        },
        None => ext.unicode_len() == 0,
    }
}

fn join_dotted(p: &str, e: &str) -> (r: String)
    ensures
        r@ == dotted(p@, e@),
{
    let mut r: String = p.to_owned();
    r.append(".");
    r.append(e);
    proof {
        reveal_strlit(".");
    }
    r
}

/// The name that Add gives `path`.
pub fn append_extension(path: &str, extension: &str, force: bool) -> (r: String)
    ensures
        r@ == added(path@, extension@, force),
{
    if !force && has_extension(path, extension) {
        path.to_owned()
    } else {
        join_dotted(path, extension)
    }
}

/// The name that Remove gives `path`.
pub fn remove_extension(path: &str, extension: &str) -> (r: String)
    ensures
        r@ == removed(path@, extension@),
{
    if extension.unicode_len() == 0 || has_extension(path, extension) {
        stem_of(path)
    } else {
        path.to_owned()
    }
}

/// The name that Set gives `path`.
pub fn set_extension(path: &str, extension: &str) -> (r: String)
    ensures
        r@ == with_ext(path@, extension@),
{
    let s = stem_of(path);
    if extension.unicode_len() == 0 {
        s
    } else {
        join_dotted(s.as_str(), extension)
    }
}

/// The name that Toggle gives `path`.
pub fn toggle_extension(path: &str, extension: &str) -> (r: String)
    ensures
        r@ == toggled(path@, extension@),
{
    if has_extension(path, extension) {
        stem_of(path)
    } else {
        append_extension(path, extension, false)
    }
}

/// The name that ToggleBetween gives `path`.
pub fn toggle_between(path: &str, extension1: &str, extension2: &str) -> (r: String)
    ensures
        r@ == toggled_between(path@, extension1@, extension2@),
{
    if has_extension(path, extension1) {
        set_extension(path, extension2)
    } else if has_extension(path, extension2) {
        set_extension(path, extension1)
    } else {
        path.to_owned()
    }
}

} // verus!
