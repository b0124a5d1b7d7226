//! The five operations, the candidates each one looks at, and the rename plan.
use vstd::prelude::*;
use crate::path::{extension, extension_of};
use crate::rewrite::{
    added, normalize, normalized, append_extension, remove_extension, removed, set_extension, toggle_between,
    toggle_extension, toggled, toggled_between, with_ext,
};
use crate::select::views;

verus! {

/// An operation on file extensions; every extension is already normalized.
#[derive(Debug)]
pub enum Operation {
    /// Append `extension`; without `force`, not where it already is the extension.
    Add { extension: String, force: bool },
    /// Strip `extension`, or any extension where it is empty.
    Remove { extension: String },
    /// Replace the extension by `extension`.
    Replace { extension: String },
    /// Strip `extension` where present, else append it.
    Toggle { extension: String },
    /// Swap `extension1` and `extension2`.
    ToggleBetween { extension1: String, extension2: String },
}

/// The name that `op` gives `p`.
pub open spec fn rewritten(op: Operation, p: Seq<char>) -> Seq<char> {
    match op {
        Operation::Add { extension, force } => added(p, extension@, force),
        Operation::Remove { extension } => removed(p, extension@),
        Operation::Replace { extension } => with_ext(p, extension@),
        Operation::Toggle { extension } => toggled(p, extension@),
        Operation::ToggleBetween { extension1, extension2 } => toggled_between(
            p,
            extension1@,
            extension2@,
        ),
    }
}

/// The paths that `op` looks at for one path given by the user: for Toggle also
/// the path with the extension added; for ToggleBetween, on a path without an
/// extension, also the path with either extension added, and on a path with one
/// of the two extensions, also the path with the other one.
pub open spec fn expanded(op: Operation, p: Seq<char>) -> Seq<Seq<char>> {
    match op {
        Operation::Toggle { extension } => seq![p, added(p, extension@, false)],
        Operation::ToggleBetween { extension1, extension2 } => if extension(p) is None {
            seq![p, added(p, extension1@, false), added(p, extension2@, false)]
        } else if extension(p) == Some(extension1@) {
            seq![p, with_ext(p, extension2@)]
        } else if extension(p) == Some(extension2@) {
            seq![p, with_ext(p, extension1@)]
        } else {
            seq![p]
        },
        _ => seq![p],
    }
}

/// The candidates of all the given paths, in order.
pub open spec fn candidates_of(op: Operation, files: Seq<Seq<char>>) -> Seq<Seq<char>>
    decreases files.len(),
{
    if files.len() == 0 {
        seq![]
    } else {
        candidates_of(op, files.drop_last()) + expanded(op, files.last())
    }
}

/// One (source, destination) pair for each file that `op` renames, in order.
pub open spec fn plan_of(op: Operation, files: Seq<Seq<char>>) -> Seq<(Seq<char>, Seq<char>)>
    decreases files.len(),
{
    if files.len() == 0 {
        seq![]
    } else {
        let prev = plan_of(op, files.drop_last());
        let f = files.last();
        let d = rewritten(op, f);
        if d == f {
            prev
        } else {
            prev.push((f, d))
        }
    }
}

/// The views of a sequence of pairs of strings.
pub open spec fn pair_views(s: Seq<(String, String)>) -> Seq<(Seq<char>, Seq<char>)> {
    s.map_values(|x: (String, String)| (x.0@, x.1@))
}

/// The name that `op` gives `path`.
pub fn rewrite(op: &Operation, path: &str) -> (r: String)
    ensures
        r@ == rewritten(*op, path@),
{
    match op {
        Operation::Add { extension, force } => append_extension(path, extension.as_str(), *force),
        Operation::Remove { extension } => remove_extension(path, extension.as_str()),
        Operation::Replace { extension } => set_extension(path, extension.as_str()),
        Operation::Toggle { extension } => toggle_extension(path, extension.as_str()),
        Operation::ToggleBetween { extension1, extension2 } => toggle_between(
            path,
            extension1.as_str(),
            extension2.as_str(),
        ),
    }
}

/// The paths that `op` looks at for the paths given by the user.
pub fn candidates(op: &Operation, files: &Vec<String>) -> (r: Vec<String>)
    ensures
        views(r@) == candidates_of(*op, views(files@)),
{
    let mut out: Vec<String> = Vec::new();
    let mut i: usize = 0;
    while i < files.len()
        invariant
            i <= files@.len(),
            views(out@) == candidates_of(*op, views(files@).subrange(0, i as int)),
        decreases files.len() - i,
    {
        let f = &files[i];
        let ghost before = views(out@);
        let ghost fs = views(files@).subrange(0, i + 1);
        assert(fs.drop_last() =~= views(files@).subrange(0, i as int));
        assert(fs.last() == f@);
        out.push(f.clone());
        match op {
            Operation::Toggle { extension } => {
                out.push(append_extension(f.as_str(), extension.as_str(), false));
            },
            Operation::ToggleBetween { extension1, extension2 } => {
                match extension_of(f.as_str()) {
                    None => {
                        out.push(append_extension(f.as_str(), extension1.as_str(), false));
                        out.push(append_extension(f.as_str(), extension2.as_str(), false));
                    },
                    Some(e) => {
                        if e == *extension1 {
                            out.push(set_extension(f.as_str(), extension2.as_str()));
                        } else if e == *extension2 {
                            out.push(set_extension(f.as_str(), extension1.as_str()));
                        }
                    },
                }
            },
            _ => {},
        }
        assert(views(out@) =~= before + expanded(*op, f@));
        i = i + 1;
    }
    assert(views(files@).subrange(0, files@.len() as int) =~= views(files@));
    out
}

/// The renames that `op` makes of the given files: one pair for each file whose
/// name changes, in order; files that keep their name are left out.
pub fn plan(op: &Operation, files: &Vec<String>) -> (r: Vec<(String, String)>)
    ensures
        pair_views(r@) == plan_of(*op, views(files@)),
{
    let mut out: Vec<(String, String)> = Vec::new();
    let mut i: usize = 0;
    while i < files.len()
        invariant
            i <= files@.len(),
            pair_views(out@) == plan_of(*op, views(files@).subrange(0, i as int)),
        decreases files.len() - i,
    {
        let f = &files[i];
        let ghost before = pair_views(out@);
        let ghost fs = views(files@).subrange(0, i + 1);
        assert(fs.drop_last() =~= views(files@).subrange(0, i as int));
        assert(fs.last() == f@);
        let d = rewrite(op, f.as_str());
        if d != *f {
            out.push((f.clone(), d));
            assert(pair_views(out@) =~= before.push((fs.last(), rewritten(*op, fs.last()))));
        }
        i = i + 1;
    }
    assert(views(files@).subrange(0, files@.len() as int) =~= views(files@));
    out
}

/// The operands of `remove [<extension>] <files...>`: with two or more tokens
/// the first is the extension, normalized; with fewer every token is a file and
/// any extension is removed.
pub fn split_remove_args(tokens: &Vec<String>) -> (r: (String, Vec<String>))
    ensures
        tokens@.len() >= 2 ==> r.0@ == normalized(tokens@[0]@) && views(r.1@) == views(
            tokens@,
        ).drop_first(),
        tokens@.len() < 2 ==> r.0@.len() == 0 && views(r.1@) == views(tokens@),
{
    let mut files: Vec<String> = Vec::new();
    let first: usize = if tokens.len() >= 2 {
        1
    } else {
        0
    };
    let mut i: usize = first;
    while i < tokens.len()
        invariant
            first <= i <= tokens@.len(),
            first == (if tokens@.len() >= 2 { 1int } else { 0int }),
            views(files@) == views(tokens@).subrange(first as int, i as int),
        decreases tokens.len() - i,
    {
        let ghost before = views(files@);
        files.push(tokens[i].clone());
        assert(views(files@) =~= before.push(tokens@[i as int]@));
        assert(views(tokens@).subrange(first as int, i + 1) =~= views(tokens@).subrange(
            first as int,
            i as int,
        ).push(tokens@[i as int]@));
        i = i + 1;
    }
    assert(views(tokens@).drop_first() =~= views(tokens@).subrange(1, tokens@.len() as int));
    assert(views(tokens@) =~= views(tokens@).subrange(0, tokens@.len() as int));
    if tokens.len() >= 2 {
        (normalize(tokens[0].as_str()), files)
    } else {
        (String::new(), files)
    }
}

} // verus!
