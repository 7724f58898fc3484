use lumixbackup::gallery::{
    clean_typed_path, generate_filenames, is_yes, join_stem, push_names_for_stem, split_extensions,
    split_list, split_names, strip_backslashes, try_generate_filenames,
};

fn strings(items: &[&str]) -> Vec<String> {
    items.iter().map(|s| s.to_string()).collect()
}

#[test]
fn every_stem_is_combined_with_every_extension() {
    let generated = generate_filenames(strings(&["IMG_1.jpg", "IMG_2"]), &strings(&["rw2", "mov"]));
    assert_eq!(generated, strings(&["IMG_1.rw2", "IMG_1.mov", "IMG_2.rw2", "IMG_2.mov"]));
}

#[test]
fn empty_names_are_skipped() {
    let generated = generate_filenames(strings(&["", "a.b.c", ""]), &strings(&["x"]));
    assert_eq!(generated, strings(&["a.b.x"]));
    assert_eq!(generate_filenames(Vec::new(), &strings(&["x"])), Vec::<String>::new());
    assert_eq!(generate_filenames(strings(&["a"]), &Vec::new()), Vec::<String>::new());
}

#[test]
fn the_stem_is_taken_from_the_last_component() {
    let generated =
        generate_filenames(strings(&["dir/sub/shot1.JPG", ".hidden"]), &strings(&["jpg", ""]));
    assert_eq!(generated, strings(&["shot1.jpg", "shot1.", ".hidden.jpg", ".hidden."]));
}

#[test]
fn a_name_without_a_stem_gives_none() {
    assert_eq!(try_generate_filenames(strings(&["a.jpg", ".."]), &strings(&["x"])), None);
    assert_eq!(try_generate_filenames(strings(&["/"]), &strings(&["x"])), None);
    assert_eq!(
        try_generate_filenames(strings(&["a.jpg", ""]), &strings(&["x", "y"])),
        Some(strings(&["a.x", "a.y"]))
    );
}

#[test]
fn a_stem_and_an_extension_are_joined_by_a_dot() {
    assert_eq!(join_stem("shot1", "jpg"), "shot1.jpg");
    assert_eq!(join_stem("", ""), ".");
    let mut names = strings(&["first"]);
    push_names_for_stem(&mut names, "s", &strings(&["a", "b"]));
    assert_eq!(names, strings(&["first", "s.a", "s.b"]));
}

#[test]
fn names_are_split_at_commas_or_else_at_blanks() {
    assert_eq!(split_names("a.jpg, b.jpg ,c.jpg\n"), strings(&["a.jpg", "b.jpg", "c.jpg"]));
    assert_eq!(split_names("a.jpg b.jpg\n"), strings(&["a.jpg", "b.jpg"]));
    assert_eq!(split_names("a.jpg  b.jpg \n"), strings(&["a.jpg", "", "b.jpg", ""]));
    assert_eq!(split_names("single\n"), strings(&["single"]));
    assert_eq!(split_names("single"), strings(&["single"]));
    assert_eq!(split_names(""), strings(&[""]));
    assert_eq!(split_names("a b,c"), strings(&["a b", "c"]));
}

#[test]
fn extensions_are_split_at_commas() {
    assert_eq!(split_extensions("jpg, rw2\n"), strings(&["jpg", "rw2"]));
    assert_eq!(split_extensions("jpg rw2"), strings(&["jpg rw2"]));
    assert_eq!(split_extensions(""), strings(&[""]));
    assert_eq!(split_list(" a ; b ", ';'), strings(&["a", "b"]));
}

#[test]
fn only_y_means_yes() {
    assert!(is_yes("y"));
    assert!(is_yes("Y\n"));
    assert!(is_yes("  y  "));
    assert!(!is_yes("yes"));
    assert!(!is_yes("n"));
    assert!(!is_yes(""));
    assert!(!is_yes("y y"));
}

#[test]
fn a_typed_path_loses_backslashes_and_outer_whitespace() {
    assert_eq!(strip_backslashes("a\\ b\\\\c"), "a bc");
    assert_eq!(strip_backslashes("\\"), "");
    assert_eq!(clean_typed_path("/Users/ana/My\\ Pictures \n"), "/Users/ana/My Pictures");
    assert_eq!(clean_typed_path(" \\ \n"), "");
}
