use treescan::git::{status_from_checks, GitStatus};
use treescan::scan::{name_excluded, scan_directory, scan_listing};
use treescan::tree::{DirEntry, RawEntry, RawKind, RawListing};
use treescan::MAX_DEPTH;

fn listing(entries: Vec<RawEntry>) -> RawListing {
    RawListing { readable: true, entries }
}

fn no_listing() -> RawListing {
    RawListing { readable: false, entries: Vec::new() }
}

fn dir(name: &str, path: &str, entries: Vec<RawEntry>) -> RawEntry {
    RawEntry {
        name: name.to_string(),
        path: path.to_string(),
        kind: RawKind::Dir,
        listing: listing(entries),
    }
}

fn unreadable_dir(name: &str, path: &str) -> RawEntry {
    RawEntry {
        name: name.to_string(),
        path: path.to_string(),
        kind: RawKind::Dir,
        listing: no_listing(),
    }
}

fn file(name: &str) -> RawEntry {
    RawEntry {
        name: name.to_string(),
        path: format!("/x/{}", name),
        kind: RawKind::NonDir,
        listing: no_listing(),
    }
}

fn unknown(name: &str) -> RawEntry {
    RawEntry {
        name: name.to_string(),
        path: format!("/x/{}", name),
        kind: RawKind::Unknown,
        listing: no_listing(),
    }
}

fn child_names(e: &DirEntry) -> Vec<String> {
    e.children.iter().map(|c| c.name.clone()).collect()
}

fn all_names(e: &DirEntry, out: &mut Vec<String>) {
    for c in &e.children {
        out.push(c.name.clone());
        all_names(c, out);
    }
}

fn depth_below(e: &DirEntry) -> usize {
    let mut m = 0;
    for c in &e.children {
        let d = 1 + depth_below(c);
        if d > m {
            m = d;
        }
    }
    m
}

#[test]
fn project_root_scenario() {
    let l = listing(vec![
        dir("src", "/proj/src", vec![]),
        dir("node_modules", "/proj/node_modules", vec![dir("lodash", "/proj/node_modules/lodash", vec![])]),
        dir(".git", "/proj/.git", vec![dir("objects", "/proj/.git/objects", vec![])]),
        file("README.md"),
    ]);
    let t = scan_directory("/proj".to_string(), &l);
    assert_eq!(t.name, "proj");
    assert_eq!(t.path, "/proj");
    assert_eq!(child_names(&t), vec!["src".to_string()]);
    assert!(t.children[0].children.is_empty());
    assert_eq!(t.children[0].path, "/proj/src");
}

#[test]
fn depth_chain_stops_at_bound() {
    let deep3 = dir("deep3", "/proj/src/utils/deep1/deep2/deep3", vec![dir(
        "deep4",
        "/proj/src/utils/deep1/deep2/deep3/deep4",
        vec![],
    )]);
    let deep2 = dir("deep2", "/proj/src/utils/deep1/deep2", vec![deep3]);
    let deep1 = dir("deep1", "/proj/src/utils/deep1", vec![deep2]);
    let utils = dir("utils", "/proj/src/utils", vec![deep1]);
    let t = scan_directory("/proj/src".to_string(), &listing(vec![utils]));
    let n_utils = &t.children[0];
    let n_deep1 = &n_utils.children[0];
    let n_deep2 = &n_deep1.children[0];
    let n_deep3 = &n_deep2.children[0];
    assert_eq!(n_deep3.name, "deep3");
    assert!(n_deep3.children.is_empty());
}

#[test]
fn depth_never_exceeds_limit() {
    let mut e = dir("d6", "/r/d1/d2/d3/d4/d5/d6", vec![]);
    for i in (1..6).rev() {
        e = dir(&format!("d{}", i), "/r", vec![e]);
    }
    let t = scan_directory("/r".to_string(), &listing(vec![e]));
    assert_eq!(depth_below(&t), MAX_DEPTH as usize);
}

#[test]
fn zero_budget_yields_nothing() {
    let l = listing(vec![dir("a", "/r/a", vec![])]);
    let out = scan_listing(&l, 0);
    assert!(out.is_empty());
}

#[test]
fn siblings_sorted_case_insensitively() {
    let l = listing(vec![
        dir("Banana", "/r/Banana", vec![]),
        dir("apple", "/r/apple", vec![]),
        dir("Cherry", "/r/Cherry", vec![]),
    ]);
    let t = scan_directory("/r".to_string(), &l);
    assert_eq!(
        child_names(&t),
        vec!["apple".to_string(), "Banana".to_string(), "Cherry".to_string()]
    );
}

#[test]
fn equal_keys_keep_listing_order() {
    let l = listing(vec![dir("AbC", "/r/AbC", vec![]), dir("abc", "/r/abc", vec![])]);
    let t = scan_directory("/r".to_string(), &l);
    assert_eq!(child_names(&t), vec!["AbC".to_string(), "abc".to_string()]);

    let l2 = listing(vec![dir("abc", "/r/abc", vec![]), dir("AbC", "/r/AbC", vec![])]);
    let t2 = scan_directory("/r".to_string(), &l2);
    assert_eq!(child_names(&t2), vec!["abc".to_string(), "AbC".to_string()]);
}

#[test]
fn missing_root_gives_empty_children() {
    let t = scan_directory("/no/such/path".to_string(), &no_listing());
    assert_eq!(t.name, "path");
    assert_eq!(t.path, "/no/such/path");
    assert!(t.children.is_empty());
}

#[test]
fn files_only_give_empty_children() {
    let l = listing(vec![file("a.txt"), file("b.rs"), unknown("c")]);
    let t = scan_directory("/r".to_string(), &l);
    assert!(t.children.is_empty());
}

#[test]
fn scanning_twice_is_identical() {
    let l = listing(vec![
        dir("beta", "/r/beta", vec![dir("inner", "/r/beta/inner", vec![])]),
        dir("Alpha", "/r/Alpha", vec![]),
        file("note.md"),
    ]);
    let a = scan_directory("/r".to_string(), &l);
    let b = scan_directory("/r".to_string(), &l);
    assert_eq!(a, b);
}

#[test]
fn excluded_names_never_appear() {
    let noisy = vec![
        "node_modules", "target", "dist", ".git", ".svn", ".hg", "__pycache__", ".next",
        ".nuxt", "build",
    ];
    let mut entries: Vec<RawEntry> = noisy
        .iter()
        .map(|n| dir(n, "/r", vec![dir("nested", "/r/nested", vec![])]))
        .collect();
    entries.push(dir(".hidden", "/r/.hidden", vec![]));
    entries.push(dir("keep", "/r/keep", vec![dir("target", "/r/keep/target", vec![])]));
    let t = scan_directory("/r".to_string(), &listing(entries));
    assert_eq!(child_names(&t), vec!["keep".to_string()]);
    let mut names = Vec::new();
    all_names(&t, &mut names);
    for n in &names {
        assert!(!n.starts_with('.'));
        assert!(!noisy.contains(&n.as_str()));
    }
}

#[test]
fn exclusion_is_case_sensitive() {
    let l = listing(vec![dir("Build", "/r/Build", vec![]), dir("build", "/r/build", vec![])]);
    let t = scan_directory("/r".to_string(), &l);
    assert_eq!(child_names(&t), vec!["Build".to_string()]);
}

#[test]
fn unknown_type_is_skipped() {
    let l = listing(vec![unknown("mystery"), dir("real", "/r/real", vec![])]);
    let t = scan_directory("/r".to_string(), &l);
    assert_eq!(child_names(&t), vec!["real".to_string()]);
}

#[test]
fn unreadable_subdirectory_is_kept_childless() {
    let l = listing(vec![unreadable_dir("locked", "/r/locked")]);
    let t = scan_directory("/r".to_string(), &l);
    assert_eq!(child_names(&t), vec!["locked".to_string()]);
    assert!(t.children[0].children.is_empty());
}

#[test]
fn root_name_falls_back_to_literal() {
    let t = scan_directory("/".to_string(), &no_listing());
    assert_eq!(t.name, "/");
    assert_eq!(t.path, "/");

    let e = scan_directory(String::new(), &no_listing());
    assert_eq!(e.name, "");
}

#[test]
fn root_name_ignores_trailing_slash() {
    let t = scan_directory("/proj/".to_string(), &no_listing());
    assert_eq!(t.name, "proj");
    assert_eq!(t.path, "/proj/");
}

#[test]
fn name_excluded_matches_rules() {
    assert!(name_excluded("node_modules"));
    assert!(name_excluded("target"));
    assert!(name_excluded("dist"));
    assert!(name_excluded(".git"));
    assert!(name_excluded(".svn"));
    assert!(name_excluded(".hg"));
    assert!(name_excluded("__pycache__"));
    assert!(name_excluded(".next"));
    assert!(name_excluded(".nuxt"));
    assert!(name_excluded("build"));
    assert!(name_excluded(".anything"));
    assert!(!name_excluded("src"));
    assert!(!name_excluded("Build"));
    assert!(!name_excluded("target2"));
    assert!(!name_excluded(""));
}

#[test]
fn git_status_without_git() {
    let s = status_from_checks(false, true, true, true);
    assert_eq!(
        s,
        GitStatus { git_installed: false, is_repo: false, user_configured: false }
    );
}

#[test]
fn git_status_outside_repo() {
    let s = status_from_checks(true, false, true, true);
    assert_eq!(
        s,
        GitStatus { git_installed: true, is_repo: false, user_configured: false }
    );
}

#[test]
fn git_status_missing_email() {
    let s = status_from_checks(true, true, true, false);
    assert_eq!(
        s,
        GitStatus { git_installed: true, is_repo: true, user_configured: false }
    );
}

#[test]
fn git_status_fully_configured() {
    let s = status_from_checks(true, true, true, true);
    assert_eq!(
        s,
        GitStatus { git_installed: true, is_repo: true, user_configured: true }
    );
}
