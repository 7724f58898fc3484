use lumixbackup::catalog::{
    contains_number, describe_install, needs_update, parse_tool_selection, Asset, Product,
    Standing, Tool, VersionOrder,
};

fn tool(name: &str, version: &str) -> Tool {
    Tool {
        name: name.to_string(),
        version: version.to_string(),
        files: vec![Asset {
            location: "src".to_string(),
            filename: "main.rs".to_string(),
            url: format!("https://example.org/{}/main.rs", name),
        }],
    }
}

fn product() -> Product {
    Product {
        last_update: "2024-01-01".to_string(),
        tools: vec![tool("alpha", "1.0.0"), tool("beta", "0.3.1"), tool("gamma", "2.0.0-rc.1")],
    }
}

fn names(tools: &Vec<&Tool>) -> Vec<String> {
    tools.iter().map(|t| t.name.clone()).collect()
}

#[test]
fn tools_are_chosen_in_catalog_order_each_once() {
    let product = product();
    assert_eq!(names(&product.filter_tools_by_user(&vec![3, 1])), vec!["alpha", "gamma"]);
    assert_eq!(names(&product.filter_tools_by_user(&vec![2, 2, 2])), vec!["beta"]);
    assert_eq!(
        names(&product.filter_tools_by_user(&vec![1, 2, 3])),
        vec!["alpha", "beta", "gamma"]
    );
}

#[test]
fn numbers_without_a_tool_choose_nothing() {
    let product = product();
    assert!(product.filter_tools_by_user(&vec![]).is_empty());
    assert!(product.filter_tools_by_user(&vec![0, 4, usize::MAX]).is_empty());
    let empty = Product { last_update: String::new(), tools: Vec::new() };
    assert!(empty.filter_tools_by_user(&vec![1]).is_empty());
}

#[test]
fn a_number_is_found_among_numbers() {
    assert!(contains_number(&vec![4, 9, 2], 9));
    assert!(!contains_number(&vec![4, 9, 2], 3));
    assert!(!contains_number(&vec![], 0));
}

#[test]
fn the_answer_is_cut_at_blanks_and_kept_where_it_names_a_tool() {
    assert_eq!(parse_tool_selection("1 3\n", 3), vec![1, 3]);
    assert_eq!(parse_tool_selection("  2  ", 3), vec![2]);
    assert_eq!(parse_tool_selection("3 3 1", 3), vec![3, 3, 1]);
    assert_eq!(parse_tool_selection("0 4 x 2", 3), vec![2]);
    assert_eq!(parse_tool_selection("1  2", 3), vec![1, 2]);
    assert_eq!(parse_tool_selection("1,2", 3), Vec::<usize>::new());
    assert_eq!(parse_tool_selection("", 3), Vec::<usize>::new());
    assert_eq!(parse_tool_selection("1", 0), Vec::<usize>::new());
    assert_eq!(parse_tool_selection("1\t2", 3), Vec::<usize>::new());
}

#[test]
fn a_tool_that_is_missing_or_older_needs_an_update() {
    assert!(needs_update(Standing::NotInstalled));
    assert!(needs_update(Standing::Installed(VersionOrder::Older)));
    assert!(!needs_update(Standing::Installed(VersionOrder::Same)));
    assert!(!needs_update(Standing::Installed(VersionOrder::Newer)));
}

#[test]
fn the_note_follows_the_order() {
    assert_eq!(
        describe_install(VersionOrder::Older, "1.2.3", "1.3.0"),
        "(update available: 1.2.3-->1.3.0)"
    );
    assert_eq!(describe_install(VersionOrder::Same, "1.3.0", "1.3.0"), "(Latest installed 1.3.0)");
    assert_eq!(describe_install(VersionOrder::Newer, "2.0.0", "1.3.0"), "");
}

#[test]
fn a_tool_that_cannot_be_run_is_to_be_installed() {
    let tool = tool("alpha", "1.0.0");
    assert!(!tool.is_installed(&None));
    assert!(tool.is_installed(&Some("1.0.0".to_string())));
    assert!(tool.is_installed(&Some("gibberish".to_string())));
    assert!(tool.is_update_available(&None));
    assert_eq!(tool.install_description(&None), "");
    assert_eq!(tool.check_update(&None), Some(true));
    assert_eq!(tool.check_description(&None), Some(String::new()));
    // The catalog's version is not looked at for a tool that is not there.
    let broken =
        Tool { name: "x".to_string(), version: "not a version".to_string(), files: vec![] };
    assert_eq!(broken.check(&None), Some(Standing::NotInstalled));
    assert_eq!(broken.check_update(&None), Some(true));
}

#[test]
fn versions_are_compared_as_semantic_versions() {
    let tool = tool("alpha", "1.10.0");
    let older = Some("1.9.3\n".to_string());
    let same = Some("  1.10.0 ".to_string());
    let newer = Some("1.10.1".to_string());
    assert!(tool.is_update_available(&older));
    assert!(!tool.is_update_available(&same));
    assert!(!tool.is_update_available(&newer));
    assert_eq!(tool.install_description(&older), "(update available: 1.9.3-->1.10.0)");
    assert_eq!(tool.install_description(&same), "(Latest installed 1.10.0)");
    assert_eq!(tool.install_description(&newer), "");
    assert_eq!(tool.check(&older), Some(Standing::Installed(VersionOrder::Older)));
    assert_eq!(tool.check(&same), Some(Standing::Installed(VersionOrder::Same)));
    assert_eq!(tool.check(&newer), Some(Standing::Installed(VersionOrder::Newer)));
    assert_eq!(tool.check_update(&older), Some(true));
    assert_eq!(tool.check_description(&same), Some("(Latest installed 1.10.0)".to_string()));
}

#[test]
fn a_release_comes_after_its_candidates() {
    let tool = tool("gamma", "2.0.0");
    let candidate = Some("2.0.0-rc.1".to_string());
    assert!(tool.is_update_available(&candidate));
    assert_eq!(tool.install_description(&candidate), "(update available: 2.0.0-rc.1-->2.0.0)");
    let early = self::tool("gamma", "2.0.0-rc.1");
    assert!(!early.is_update_available(&Some("2.0.0-rc.2".to_string())));
    assert!(early.is_update_available(&Some("2.0.0-beta.11".to_string())));
}

#[test]
fn what_writes_no_version_cannot_be_read() {
    let tool = tool("alpha", "1.0.0");
    for printed in ["", "alpha 1.0.0", "1.0", "v1.0.0", "1.0.01", "1.0.0 extra"] {
        let probe = Some(printed.to_string());
        assert_eq!(tool.check(&probe), None);
        assert_eq!(tool.check_update(&probe), None);
        assert_eq!(tool.check_description(&probe), None);
    }
    let broken = Tool { name: "x".to_string(), version: "latest".to_string(), files: vec![] };
    assert_eq!(broken.check(&Some("1.0.0".to_string())), None);
    assert_eq!(broken.check_update(&Some("1.0.0".to_string())), None);
}
