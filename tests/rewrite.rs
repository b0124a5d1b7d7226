use fext::path::{extension_of, split_file_name, stem_of};
use fext::rewrite::{
    append_extension, has_extension, normalize, remove_extension, set_extension, toggle_between,
    toggle_extension,
};

#[test]
fn extension_and_stem_of_plain_name() {
    assert_eq!(extension_of("report.txt"), Some("txt".to_string()));
    assert_eq!(stem_of("report.txt"), "report");
}

#[test]
fn extension_of_compound_name_is_last_part() {
    assert_eq!(extension_of("archive.tar.gz"), Some("gz".to_string()));
    assert_eq!(stem_of("archive.tar.gz"), "archive.tar");
}

#[test]
fn name_without_dot_has_no_extension() {
    assert_eq!(extension_of("notes"), None);
    assert_eq!(stem_of("notes"), "notes");
}

#[test]
fn hidden_file_has_no_extension() {
    assert_eq!(extension_of(".bashrc"), None);
    assert_eq!(stem_of(".bashrc"), ".bashrc");
    assert_eq!(extension_of("dir/.profile"), None);
    assert_eq!(extension_of(".config.toml"), Some("toml".to_string()));
}

#[test]
fn dot_in_directory_is_not_an_extension() {
    assert_eq!(extension_of("conf.d/notes"), None);
    assert_eq!(stem_of("conf.d/notes"), "conf.d/notes");
    assert_eq!(stem_of("conf.d/notes.md"), "conf.d/notes");
}

#[test]
fn trailing_dot_is_an_empty_extension() {
    assert_eq!(extension_of("notes."), Some(String::new()));
    assert_eq!(stem_of("notes."), "notes");
}

#[test]
fn split_file_name_parts() {
    assert_eq!(split_file_name("a/b/photo.jpeg"), ("a/b/".to_string(), "photo.jpeg".to_string()));
    assert_eq!(split_file_name("photo.jpeg"), (String::new(), "photo.jpeg".to_string()));
}

#[test]
fn normalize_strips_one_leading_dot() {
    assert_eq!(normalize(".txt"), "txt");
    assert_eq!(normalize("txt"), "txt");
    assert_eq!(normalize(""), "");
    assert_eq!(normalize("..txt"), ".txt");
}

#[test]
fn normalize_twice_is_normalize_once() {
    for t in ["txt", ".txt", "", ".", "tar.gz"] {
        assert_eq!(normalize(&normalize(t)), normalize(t));
    }
}

#[test]
fn normalize_twice_differs_on_two_leading_dots() {
    assert_eq!(normalize(&normalize("..txt")), "txt");
}

#[test]
fn has_extension_empty_means_none() {
    assert!(has_extension("notes", ""));
    assert!(!has_extension("notes.md", ""));
    assert!(has_extension("notes.md", "md"));
    assert!(!has_extension("notes.md", "txt"));
}

#[test]
fn add_force_appends_compound_extension() {
    assert_eq!(append_extension("archive.tar", "gz", true), "archive.tar.gz");
}

#[test]
fn add_without_force_keeps_same_extension() {
    assert_eq!(append_extension("archive.tar.gz", "gz", false), "archive.tar.gz");
    assert_eq!(append_extension("archive.tar.gz", "gz", true), "archive.tar.gz.gz");
}

#[test]
fn add_to_bare_name_and_other_extension() {
    assert_eq!(append_extension("notes", "md", false), "notes.md");
    assert_eq!(append_extension("notes.txt", "md", false), "notes.txt.md");
}

#[test]
fn add_empty_extension() {
    assert_eq!(append_extension("notes", "", false), "notes");
    assert_eq!(append_extension("notes", "", true), "notes.");
    assert_eq!(append_extension("notes.md", "", false), "notes.md.");
    assert_eq!(append_extension("notes.md.", "", false), "notes.md.");
}

#[test]
fn add_twice_is_add_once() {
    for f in ["notes", "notes.md", "a.tar", "dir/x"] {
        let once = append_extension(f, "md", false);
        assert_eq!(append_extension(&once, "md", false), once);
    }
}

#[test]
fn remove_any_extension() {
    assert_eq!(remove_extension("notes", ""), "notes");
    assert_eq!(remove_extension("notes.md", ""), "notes");
}

#[test]
fn remove_specific_extension() {
    assert_eq!(remove_extension("notes.md", "md"), "notes");
    assert_eq!(remove_extension("notes.md", "txt"), "notes.md");
    assert_eq!(remove_extension("archive.tar.gz", "gz"), "archive.tar");
}

#[test]
fn remove_undoes_add_on_bare_name() {
    for force in [false, true] {
        let added = append_extension("notes", "bak", force);
        assert_eq!(added, "notes.bak");
        assert_eq!(remove_extension(&added, "bak"), "notes");
    }
}

#[test]
fn set_replaces_extension() {
    assert_eq!(set_extension("photo.jpeg", "jpg"), "photo.jpg");
    assert_eq!(set_extension("photo", "jpg"), "photo.jpg");
    assert_eq!(set_extension("photo.jpeg", ""), "photo");
}

#[test]
fn toggle_adds_and_strips() {
    assert_eq!(toggle_extension("report", "txt"), "report.txt");
    assert_eq!(toggle_extension("report.txt", "txt"), "report");
    assert_eq!(toggle_extension("report.bak", "txt"), "report.bak.txt");
}

#[test]
fn toggle_twice_restores_name() {
    for f in ["report", "report.bak", "dir/report"] {
        let once = toggle_extension(f, "txt");
        assert_ne!(once, f);
        assert_eq!(toggle_extension(&once, "txt"), f);
    }
}

#[test]
fn toggle_between_swaps() {
    assert_eq!(toggle_between("photo.jpg", "jpg", "png"), "photo.png");
    assert_eq!(toggle_between("photo.png", "jpg", "png"), "photo.jpg");
    assert_eq!(toggle_between("photo.gif", "jpg", "png"), "photo.gif");
    assert_eq!(toggle_between("photo", "jpg", "png"), "photo");
}

#[test]
fn toggle_between_twice_restores_extension() {
    let once = toggle_between("a/photo.jpg", "jpg", "png");
    assert_eq!(once, "a/photo.png");
    assert_eq!(toggle_between(&once, "jpg", "png"), "a/photo.jpg");
}
