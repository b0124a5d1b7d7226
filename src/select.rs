//! Choosing, among candidate paths, the regular files to work on.
use vstd::prelude::*;

verus! {

/// What a path refers to on the filesystem, as found just before the run.
#[derive(Clone, Copy, Debug, PartialEq, Eq, Structural)]
pub enum FileKind {
    Regular,
    Directory,
    Missing,
    Other,
}

/// Why no rename can be planned.
#[derive(Clone, Copy, Debug, PartialEq, Eq, Structural)]
pub enum SelectError {
    NoMatchingFiles,
}

impl SelectError {
    /// A message for the user.
    pub fn message(&self) -> (r: &'static str)
        ensures
            r@ == "No files match filter!"@,
    {
        match self {
            SelectError::NoMatchingFiles => "No files match filter!",
        }
    }
}

/// The views of a sequence of strings.
pub open spec fn views(s: Seq<String>) -> Seq<Seq<char>> {
    s.map_values(|x: String| x@)
}

/// A candidate path, what it refers to, and the key that names the file it
/// refers to (its canonical path): two spellings of one file share the key.
pub type Candidate = (String, FileKind, String);

/// The regular files among `files`, one path for each key, the first one met,
/// in the order of first appearance.
pub open spec fn selected(files: Seq<Candidate>) -> Seq<Seq<char>>
    decreases files.len(),
{
    if files.len() == 0 {
        seq![]
    } else {
        let prev = selected(files.drop_last());
        let (f, k, key) = files.last();
        if k == FileKind::Regular && !selected_keys(files.drop_last()).contains(key@) {
            prev.push(f@)
        } else {
            prev
        }
    }
}

/// The keys of the files that `selected` keeps, in the same order.
pub open spec fn selected_keys(files: Seq<Candidate>) -> Seq<Seq<char>>
    decreases files.len(),
{
    if files.len() == 0 {
        seq![]
    } else {
        let prev = selected_keys(files.drop_last());
        let (f, k, key) = files.last();
        if k == FileKind::Regular && !prev.contains(key@) {
            prev.push(key@)
        } else {
            prev
        }
    }
}

/// No two entries are equal.
pub open spec fn no_repeats(s: Seq<Seq<char>>) -> bool {
    forall|j: int, k: int| 0 <= j < k < s.len() ==> s[j] != s[k]
}

/// Only regular files are renamed.
pub fn is_file(kind: FileKind) -> (r: bool)
    ensures
        r == (kind == FileKind::Regular),
{
    kind == FileKind::Regular
}

/// Whether `v` holds a string equal to `s`.
pub fn contains_path(v: &Vec<String>, s: &String) -> (r: bool)
    ensures
        r == views(v@).contains(s@),
{
    let mut i: usize = 0;
    while i < v.len()
        invariant
            i <= v@.len(),
            forall|j: int| 0 <= j < i ==> v@[j]@ != s@,
        decreases v.len() - i,
    {
        if v[i] == *s {
            assert(views(v@)[i as int] == s@);
            return true;
        }
        i = i + 1;
    }
    assert forall|j: int| 0 <= j < views(v@).len() implies views(v@)[j] != s@ by {
        assert(views(v@)[j] == v@[j]@);
    }
    false
}

/// The regular files among the candidates, one path for each file, in their
/// first order; fails where there is none.
pub fn get_files(files: &Vec<Candidate>) -> (r: Result<Vec<String>, SelectError>)
    ensures
        selected(files@).len() == selected_keys(files@).len(),
        no_repeats(selected_keys(files@)),
        match r {
            Ok(v) => views(v@) == selected(files@) && v@.len() > 0,
            Err(e) => e == SelectError::NoMatchingFiles && selected(files@).len() == 0,
        },
{
    let mut out: Vec<String> = Vec::new();
    let mut keys: Vec<String> = Vec::new();
    let mut i: usize = 0;
    while i < files.len()
        invariant
            i <= files@.len(),
            views(out@) == selected(files@.subrange(0, i as int)),
            views(keys@) == selected_keys(files@.subrange(0, i as int)),
            out@.len() == keys@.len(),
            no_repeats(views(keys@)),
        decreases files.len() - i,
    {
        let entry = &files[i];
        let ghost before = out@;
        let ghost before_keys = keys@;
        assert(files@.subrange(0, i + 1).drop_last() =~= files@.subrange(0, i as int));
        if is_file(entry.1) && !contains_path(&keys, &entry.2) {
            out.push(entry.0.clone());
            keys.push(entry.2.clone());
            assert(views(out@) =~= views(before).push(entry.0@));
            assert(views(keys@) =~= views(before_keys).push(entry.2@));
            assert forall|j: int, k: int| 0 <= j < k < views(keys@).len() implies views(keys@)[j]
                != views(keys@)[k] by {
                if k == views(keys@).len() - 1 {
                    assert(views(keys@)[k] == entry.2@);
                    assert(views(keys@)[j] == views(before_keys)[j]);
                    assert(views(before_keys).contains(views(before_keys)[j]));
                } else {
                    assert(views(keys@)[j] == views(before_keys)[j]);
                    assert(views(keys@)[k] == views(before_keys)[k]);
                }
            }
        }
        i = i + 1;
    }
    assert(files@.subrange(0, files@.len() as int) =~= files@);
    if out.len() == 0 {
        Err(SelectError::NoMatchingFiles)
    } else {
        Ok(out)
    }
}

} // verus!
