use wtrm::cli::{choose_roots, default_root_candidates, table_line, RootsError};
use wtrm::paths::{same_path, path_file_name, path_join, path_parent, path_starts_with, shorten_path};
use wtrm::scan::fixture;

#[test]
fn path_parts() {
    assert_eq!(path_parent("/a/b").as_deref(), Some("/a"));
    assert_eq!(path_parent("/a").as_deref(), Some("/"));
    assert_eq!(path_parent("/"), None);
    assert_eq!(path_parent("a").as_deref(), Some(""));
    assert_eq!(path_file_name("/a/b").as_deref(), Some("b"));
    assert_eq!(path_file_name("/"), None);
    assert_eq!(path_file_name("/a/.."), None);
    assert_eq!(path_join("/a", "b"), "/a/b");
    assert_eq!(path_join("/a/", "b"), "/a/b");
    assert_eq!(path_join("/a", "/b"), "/b");
}

#[test]
fn parents_and_names_by_component() {
    assert_eq!(path_parent("/a/b/").as_deref(), Some("/a"));
    assert_eq!(path_parent("/a//b").as_deref(), Some("/a"));
    assert_eq!(path_parent("/a/b/.").as_deref(), Some("/a"));
    assert_eq!(path_parent("/a/..").as_deref(), Some("/a"));
    assert_eq!(path_parent("./a").as_deref(), Some("."));
    assert_eq!(path_parent(".").as_deref(), Some(""));
    assert_eq!(path_parent("a/.").as_deref(), Some(""));
    assert_eq!(path_parent("//"), None);
    assert_eq!(path_parent(""), None);
    assert_eq!(path_file_name("/a/b/").as_deref(), Some("b"));
    assert_eq!(path_file_name("foo.txt/.//").as_deref(), Some("foo.txt"));
    assert_eq!(path_file_name("./a").as_deref(), Some("a"));
    assert_eq!(path_file_name("."), None);
    assert_eq!(path_file_name(""), None);
}

#[test]
fn shortens_home() {
    let home = Some("/home/u".to_string());
    assert_eq!(shorten_path("/home/u", home.clone()), "~");
    assert_eq!(shorten_path("/home/u/x/y", home.clone()), "~/x/y");
    assert_eq!(shorten_path("/home/user2", home.clone()), "/home/user2");
    assert_eq!(shorten_path("/home/u/x", Some("/home/u/".to_string())), "~/x");
    assert_eq!(shorten_path("/x", None), "/x");
    assert_eq!(shorten_path("/x", Some("/".to_string())), "~/x");
    assert_eq!(shorten_path("/home/u/project/", home.clone()), "~/project");
    assert_eq!(shorten_path("/home/u/", home.clone()), "~");
    assert_eq!(shorten_path("/home/u//x", home.clone()), "~/x");
    assert_eq!(shorten_path("/home/u/", Some("/home/u/".to_string())), "~");
    assert_eq!(shorten_path("/", Some("/".to_string())), "~");
    assert_eq!(shorten_path("/a/", Some(String::new())), "~//a");
    assert_eq!(shorten_path("/home//u/a//b", home.clone()), "~/a//b");
    assert_eq!(shorten_path("/home/u/./a", home.clone()), "~/a");
    assert!(path_starts_with("/home//u/a", "/home/u/"));
    assert!(!path_starts_with("/home/uu", "/home/u"));
    assert!(path_starts_with("/anything", ""));
}

#[test]
fn chooses_roots() {
    assert_eq!(
        choose_roots(true, Some("/h".to_string()), vec!["/p".to_string()], vec![], None),
        Ok(vec!["/h".to_string()])
    );
    assert_eq!(choose_roots(true, None, vec![], vec![], None), Err(RootsError::NoHome));
    assert_eq!(
        choose_roots(false, None, vec!["/p".to_string()], vec!["/d".to_string()], None),
        Ok(vec!["/p".to_string()])
    );
    assert_eq!(
        choose_roots(false, None, vec![], vec!["/h/dev".to_string()], Some("/h/dev/x".to_string())),
        Ok(vec!["/h/dev".to_string()])
    );
    assert_eq!(
        choose_roots(false, None, vec![], vec!["/h/dev".to_string()], Some("/h/devx".to_string())),
        Ok(vec!["/h/dev".to_string(), "/h/devx".to_string()])
    );
    assert_eq!(choose_roots(false, None, vec![], vec![], None), Err(RootsError::NoCurrentDir));
    assert!(path_starts_with("/a/b", "/a"));
    assert!(!path_starts_with("/ab", "/a"));
    let candidates = default_root_candidates("/h");
    assert_eq!(candidates.len(), 10);
    assert_eq!(candidates[0], "/h/project");
    assert_eq!(candidates[9], "/h/workspace");
}

#[test]
fn listing_line() {
    let wt = fixture("/home/u/w/demo-a", "demo", false, Some(10));
    assert_eq!(
        table_line(&wt, 70, &Some("/home/u".to_string())),
        "1m\tdemo\tfeature\tclean\t~/w\t~/w/demo-a"
    );
}

#[test]
fn paths_equal_by_component() {
    assert!(same_path("/a/b", "/a//b/"));
    assert!(same_path("/a/./b", "/a/b/."));
    assert!(same_path("./a", ".//a/"));
    assert!(!same_path("./a", "a"));
    assert!(!same_path("/a", "a"));
    assert!(!same_path("/a/b", "/a/bc"));
    assert!(same_path("", ""));
    assert!(!same_path("/a/..", "/"));
}
