use lumixbackup::paths::{
    expand_tilde, expand_tilde_with, get_output_folder, matches_extension, path_has_extension,
    path_starts_at_home, unescape_backslashes, DEFAULT_OUTPUT_FOLDER,
};

#[test]
fn extensions_are_read_off_the_last_component() {
    assert!(path_has_extension("/card/DCIM/100_PANA/P1000001.JPG", "jpg"));
    assert!(path_has_extension("clip.mov", "MOV"));
    assert!(path_has_extension("archive.tar.gz", "gz"));
    assert!(!path_has_extension("archive.tar.gz", "tar"));
    assert!(!path_has_extension("folder.jpg/readme", "jpg"));
    assert!(!path_has_extension(".jpg", "jpg"));
    assert!(!path_has_extension("jpg", "jpg"));
    assert!(!path_has_extension("a.jpg", "a.jpg"));
    assert!(!path_has_extension("noext", ""));
    assert!(path_has_extension("trailing.", ""));
}

#[test]
fn an_extension_that_was_read_is_matched_without_regard_to_case() {
    assert!(matches_extension(&Some("RW2".to_string()), "rw2"));
    assert!(!matches_extension(&Some("rw2".to_string()), "rw"));
    assert!(!matches_extension(&None, "rw2"));
    assert!(!matches_extension(&None, ""));
    assert!(matches_extension(&Some(String::new()), ""));
}

#[test]
fn backslashes_protect_the_next_character() {
    assert_eq!(unescape_backslashes("/Volumes/Ana\\ Home/\\*Work\\ in\\ progress"),
        "/Volumes/Ana Home/*Work in progress");
    assert_eq!(unescape_backslashes("plain"), "plain");
    assert_eq!(unescape_backslashes(""), "");
    assert_eq!(unescape_backslashes("a\\\\b"), "a\\b");
    assert_eq!(unescape_backslashes("\\\\\\\\"), "\\\\");
    assert_eq!(unescape_backslashes("\\a\\b\\c"), "abc");
}

#[test]
fn a_backslash_at_the_end_stays() {
    assert_eq!(unescape_backslashes("dir\\"), "dir\\");
    assert_eq!(unescape_backslashes("\\"), "\\");
    assert_eq!(unescape_backslashes("a\\\\\\"), "a\\\\");
}

#[test]
fn a_tilde_is_replaced_by_the_home() {
    let home = Some("/home/ana".to_string());
    assert_eq!(expand_tilde_with("~/Pictures", &home), "/home/ana/Pictures");
    assert_eq!(expand_tilde_with("~/", &home), "/home/ana/");
    assert_eq!(expand_tilde_with("~/a/~/b", &home), "/home/ana/a/~/b");
}

#[test]
fn other_paths_are_left_alone() {
    let home = Some("/home/ana".to_string());
    assert_eq!(expand_tilde_with("~", &home), "~");
    assert_eq!(expand_tilde_with("~user/x", &home), "~user/x");
    assert_eq!(expand_tilde_with("/abs/~/x", &home), "/abs/~/x");
    assert_eq!(expand_tilde_with("", &home), "");
    assert_eq!(expand_tilde_with("~/Pictures", &None), "~/Pictures");
    assert_eq!(expand_tilde("/mnt/ssd"), "/mnt/ssd");
    assert_eq!(expand_tilde("relative/dir"), "relative/dir");
}

#[test]
fn the_home_of_the_machine_is_used() {
    let expanded = expand_tilde("~/backup");
    match dirs::home_dir() {
        Some(home) => assert_eq!(expanded, format!("{}/backup", home.to_string_lossy())),
        None => assert_eq!(expanded, "~/backup"),
    }
}

#[test]
fn starting_at_home_needs_tilde_and_slash() {
    assert!(path_starts_at_home("~/"));
    assert!(path_starts_at_home("~/x"));
    assert!(!path_starts_at_home("~"));
    assert!(!path_starts_at_home("~x/"));
    assert!(!path_starts_at_home(" ~/"));
    assert!(!path_starts_at_home(""));
}

#[test]
fn a_blank_line_gives_the_default_folder() {
    assert_eq!(DEFAULT_OUTPUT_FOLDER, "./auto-backup");
    assert_eq!(get_output_folder(""), "./auto-backup");
    assert_eq!(get_output_folder("   \n"), "./auto-backup");
    assert_eq!(get_output_folder("\t"), "./auto-backup");
}

#[test]
fn a_typed_folder_is_trimmed_and_unescaped() {
    assert_eq!(get_output_folder("  /Volumes/My\\ SSD/backup \n"), "/Volumes/My SSD/backup");
    assert_eq!(get_output_folder("/mnt/ssd"), "/mnt/ssd");
    assert_eq!(get_output_folder("x"), "x");
}
