use fext::glob::{check_glob, glob_match, is_glob, GlobError};
use fext::ops::{candidates, plan, rewrite, split_remove_args, Operation};
use fext::select::{get_files, is_file, FileKind, SelectError};

fn strings(v: &[&str]) -> Vec<String> {
    v.iter().map(|s| s.to_string()).collect()
}

fn pairs(v: &[(&str, &str)]) -> Vec<(String, String)> {
    v.iter().map(|(a, b)| (a.to_string(), b.to_string())).collect()
}

#[test]
fn toggle_report_pair() {
    let op = Operation::Toggle { extension: "txt".to_string() };
    let given = strings(&["report", "report.txt"]);
    let cands = candidates(&op, &given);
    assert_eq!(cands, strings(&["report", "report.txt", "report.txt", "report.txt"]));
    let with_kinds: Vec<(String, FileKind, String)> =
        cands.into_iter().map(|c| (c.clone(), FileKind::Regular, c)).collect();
    let files = get_files(&with_kinds).unwrap();
    assert_eq!(files, strings(&["report", "report.txt"]));
    let renames = plan(&op, &files);
    assert_eq!(renames, pairs(&[("report", "report.txt"), ("report.txt", "report")]));
    assert!(renames.iter().all(|(s, d)| s != "report.bak" && d != "report.bak"));
}

#[test]
fn rewrite_dispatches_each_operation() {
    let add = Operation::Add { extension: "gz".to_string(), force: false };
    assert_eq!(rewrite(&add, "a.tar"), "a.tar.gz");
    let remove = Operation::Remove { extension: "md".to_string() };
    assert_eq!(rewrite(&remove, "notes.md"), "notes");
    let replace = Operation::Replace { extension: "jpg".to_string() };
    assert_eq!(rewrite(&replace, "photo.jpeg"), "photo.jpg");
    let toggle = Operation::Toggle { extension: "txt".to_string() };
    assert_eq!(rewrite(&toggle, "report"), "report.txt");
    let between = Operation::ToggleBetween { extension1: "jpg".to_string(), extension2: "png".to_string() };
    assert_eq!(rewrite(&between, "photo.png"), "photo.jpg");
}

#[test]
fn add_force_on_archive() {
    let op = Operation::Add { extension: "gz".to_string(), force: true };
    let files = strings(&["archive.tar"]);
    assert_eq!(plan(&op, &files), pairs(&[("archive.tar", "archive.tar.gz")]));
    let op = Operation::Add { extension: "gz".to_string(), force: false };
    assert_eq!(plan(&op, &strings(&["archive.tar.gz"])), pairs(&[]));
}

#[test]
fn remove_on_notes() {
    let op = Operation::Remove { extension: String::new() };
    assert_eq!(plan(&op, &strings(&["notes"])), pairs(&[]));
    assert_eq!(plan(&op, &strings(&["notes.md"])), pairs(&[("notes.md", "notes")]));
}

#[test]
fn set_on_globbed_photo() {
    assert!(is_glob("*.jpeg"));
    assert!(glob_match("*.jpeg", "photo.jpeg"));
    assert!(!glob_match("*.jpeg", "photo.jpg"));
    let op = Operation::Replace { extension: "jpg".to_string() };
    assert_eq!(plan(&op, &strings(&["photo.jpeg"])), pairs(&[("photo.jpeg", "photo.jpg")]));
}

#[test]
fn toggle_between_candidates_for_bare_name() {
    let op = Operation::ToggleBetween { extension1: "jpg".to_string(), extension2: "png".to_string() };
    let cands = candidates(&op, &strings(&["photo", "icon.png"]));
    assert_eq!(cands, strings(&["photo", "photo.jpg", "photo.png", "icon.png", "icon.jpg"]));
    let kinds = [
        FileKind::Missing,
        FileKind::Regular,
        FileKind::Missing,
        FileKind::Regular,
        FileKind::Missing,
    ];
    let with_kinds: Vec<(String, FileKind, String)> =
        cands.into_iter().zip(kinds).map(|(c, k)| (c.clone(), k, c)).collect();
    let files = get_files(&with_kinds).unwrap();
    assert_eq!(files, strings(&["photo.jpg", "icon.png"]));
    assert_eq!(
        plan(&op, &files),
        pairs(&[("photo.jpg", "photo.png"), ("icon.png", "icon.jpg")])
    );
}

#[test]
fn toggle_between_candidates_for_extended_name() {
    let op = Operation::ToggleBetween { extension1: "jpg".to_string(), extension2: "png".to_string() };
    let cands = candidates(&op, &strings(&["photo.jpg", "icon.png", "doc.pdf"]));
    assert_eq!(cands, strings(&["photo.jpg", "photo.png", "icon.png", "icon.jpg", "doc.pdf"]));
}

#[test]
fn toggle_between_run_twice_finds_renamed_file() {
    let op = Operation::ToggleBetween { extension1: "jpg".to_string(), extension2: "png".to_string() };
    let cands = candidates(&op, &strings(&["photo.jpg"]));
    assert_eq!(cands, strings(&["photo.jpg", "photo.png"]));
    let kinds = [FileKind::Missing, FileKind::Regular];
    let with_kinds: Vec<(String, FileKind, String)> =
        cands.into_iter().zip(kinds).map(|(c, k)| (c.clone(), k, c)).collect();
    let files = get_files(&with_kinds).unwrap();
    assert_eq!(plan(&op, &files), pairs(&[("photo.png", "photo.jpg")]));
}

#[test]
fn candidates_of_other_operations_are_the_inputs() {
    let op = Operation::Add { extension: "gz".to_string(), force: false };
    assert_eq!(candidates(&op, &strings(&["a", "b.tar"])), strings(&["a", "b.tar"]));
}

#[test]
fn only_regular_files_are_eligible() {
    assert!(is_file(FileKind::Regular));
    assert!(!is_file(FileKind::Directory));
    assert!(!is_file(FileKind::Missing));
    assert!(!is_file(FileKind::Other));
}

#[test]
fn get_files_filters_and_dedupes() {
    let input = vec![
        ("a".to_string(), FileKind::Regular, "/w/a".to_string()),
        ("d".to_string(), FileKind::Directory, "/w/d".to_string()),
        ("b".to_string(), FileKind::Regular, "/w/b".to_string()),
        ("a".to_string(), FileKind::Regular, "/w/a".to_string()),
        ("m".to_string(), FileKind::Missing, "m".to_string()),
    ];
    assert_eq!(get_files(&input), Ok(strings(&["a", "b"])));
}

#[test]
fn get_files_dedupes_by_canonical_key() {
    let input = vec![
        ("./a".to_string(), FileKind::Regular, "/w/a".to_string()),
        ("a".to_string(), FileKind::Regular, "/w/a".to_string()),
        ("../w/a".to_string(), FileKind::Regular, "/w/a".to_string()),
        ("b".to_string(), FileKind::Regular, "/w/b".to_string()),
    ];
    assert_eq!(get_files(&input), Ok(strings(&["./a", "b"])));
}

#[test]
fn get_files_without_regular_file_fails() {
    let input = vec![("d".to_string(), FileKind::Directory, "/w/d".to_string())];
    assert_eq!(get_files(&input), Err(SelectError::NoMatchingFiles));
    assert_eq!(get_files(&Vec::new()), Err(SelectError::NoMatchingFiles));
    assert_eq!(SelectError::NoMatchingFiles.message(), "No files match filter!");
}

#[test]
fn glob_wildcards() {
    assert!(glob_match("photo.???g", "photo.jpeg"));
    assert!(!glob_match("photo.??g", "photo.jpeg"));
    assert!(glob_match("*", "photo"));
    assert!(glob_match("p*o*", "photo"));
    assert!(!glob_match("*", ".hidden"));
    assert!(glob_match(".*", ".hidden"));
    assert!(glob_match("", ""));
    assert!(!glob_match("", "a"));
}

#[test]
fn glob_classes() {
    assert!(glob_match("file[0-2]", "file-"));
    assert!(glob_match("file[12]", "file1"));
    assert!(!glob_match("file[12]", "file3"));
    assert!(glob_match("file[!12]", "file3"));
    assert!(!glob_match("file[!12]", "file2"));
}

#[test]
fn glob_validity() {
    assert!(!is_glob("photo.jpeg"));
    assert_eq!(check_glob("*.jpeg"), Ok(()));
    assert_eq!(check_glob("file[12].txt"), Ok(()));
    assert_eq!(check_glob("file[12.txt"), Err(GlobError::InvalidGlobPattern));
    assert_eq!(check_glob("file[].txt"), Err(GlobError::InvalidGlobPattern));
    assert_eq!(check_glob("file[!].txt"), Err(GlobError::InvalidGlobPattern));
}

#[test]
fn remove_operands_with_extension() {
    let (ext, files) = split_remove_args(&strings(&[".md", "notes.md", "todo.md"]));
    assert_eq!(ext, "md");
    assert_eq!(files, strings(&["notes.md", "todo.md"]));
}

#[test]
fn remove_operands_single_file() {
    let (ext, files) = split_remove_args(&strings(&["notes.md"]));
    assert_eq!(ext, "");
    assert_eq!(files, strings(&["notes.md"]));
}
