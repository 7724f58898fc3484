use lumixbackup::discover::{is_dcim_folder, is_media_file, is_skipped_dir, retain_media};
use lumixbackup::entry::FileEntry;

fn entry(path: &str, timestamp: i64) -> FileEntry {
    FileEntry { path: path.to_string(), timestamp }
}

#[test]
fn pictures_and_films_are_media() {
    assert!(is_media_file("/DCIM/100/shot1.jpg"));
    assert!(is_media_file("/DCIM/100/shot1.JPG"));
    assert!(is_media_file("/DCIM/100/shot1.Rw2"));
    assert!(is_media_file("clip.MOV"));
    assert!(!is_media_file("clip.mp4"));
    assert!(!is_media_file("shot1.jpeg"));
    assert!(!is_media_file("jpg"));
    assert!(!is_media_file("notes.txt"));
    assert!(!is_media_file(""));
    assert!(!is_media_file("shot1.jpg/.."));
    // A trailing separator does not change what the last component is.
    assert!(is_media_file("shot1.jpg/"));
}

#[test]
fn only_media_is_retained_in_order() {
    let files = vec![
        entry("b.MOV", 5),
        entry("readme.txt", 1),
        entry("a.jpg", 9),
        entry("thumbs.db", 2),
        entry("c.rw2", 3),
    ];
    assert_eq!(retain_media(&files), vec![entry("b.MOV", 5), entry("a.jpg", 9), entry("c.rw2", 3)]);
    assert_eq!(retain_media(&Vec::new()), Vec::new());
}

#[test]
fn system_folders_are_skipped_by_exact_name() {
    for name in
        [".Spotlight-V100", ".fseventsd", ".Trashes", ".DocumentRevisions-V100", ".TemporaryItems"]
    {
        assert!(is_skipped_dir(name));
    }
    assert!(!is_skipped_dir(".trashes"));
    assert!(!is_skipped_dir("Trashes"));
    assert!(!is_skipped_dir(".Trashes "));
    assert!(!is_skipped_dir("DCIM"));
    assert!(!is_skipped_dir(""));
}

#[test]
fn the_pictures_folder_is_a_directory_called_dcim() {
    assert!(is_dcim_folder("DCIM", true));
    assert!(is_dcim_folder("dcim", true));
    assert!(is_dcim_folder("Dcim", true));
    assert!(!is_dcim_folder("DCIM", false));
    assert!(!is_dcim_folder("DCIM2", true));
    assert!(!is_dcim_folder("", true));
}
