use treescan::git::{parse_branches, trim_str};

#[test]
fn trim_removes_surrounding_whitespace() {
    assert_eq!(trim_str("  main\n"), "main");
    assert_eq!(trim_str("\t feature/x \r\n"), "feature/x");
    assert_eq!(trim_str("inner space stays"), "inner space stays");
    assert_eq!(trim_str("   "), "");
    assert_eq!(trim_str(""), "");
}

#[test]
fn branches_one_per_line() {
    let out = "main\nfeature/login\nwip\n";
    assert_eq!(
        parse_branches(out),
        vec!["main".to_string(), "feature/login".to_string(), "wip".to_string()]
    );
}

#[test]
fn branches_are_trimmed() {
    let out = "  main  \n\tdev\r\n   feature x \n";
    assert_eq!(
        parse_branches(out),
        vec!["main".to_string(), "dev".to_string(), "feature x".to_string()]
    );
}

#[test]
fn empty_lines_are_dropped() {
    let out = "\nmain\n\n   \n\ndev\n\n";
    assert_eq!(parse_branches(out), vec!["main".to_string(), "dev".to_string()]);
}

#[test]
fn empty_output_gives_no_branches() {
    assert_eq!(parse_branches(""), Vec::<String>::new());
    assert_eq!(parse_branches("   \n \t \n"), Vec::<String>::new());
}

#[test]
fn lone_branch_without_newline() {
    assert_eq!(parse_branches("main"), vec!["main".to_string()]);
    assert_eq!(parse_branches("  main"), vec!["main".to_string()]);
}

#[test]
fn order_is_kept() {
    let out = "zeta\nalpha\nmid\n";
    assert_eq!(
        parse_branches(out),
        vec!["zeta".to_string(), "alpha".to_string(), "mid".to_string()]
    );
}
