use mibox::boxpath::BoxPath;
use mibox::catalog::{filter_prefixed, paginate};
use mibox::configuration::Environment;
use mibox::error::DriveError;
use mibox::params::{count_in_bounds, QueryParams};
use mibox::path::check_tree_walk;
use mibox::views::{display_child_path, previous_display};

fn b(s: &str) -> Vec<u8> {
    s.as_bytes().to_vec()
}

#[test]
fn parent_directory_components_are_rejected() {
    assert_eq!(
        check_tree_walk(&b("../etc/passwd")),
        Err(DriveError::EntryNameInvalid)
    );
    assert_eq!(
        check_tree_walk(&b("a/../../b")),
        Err(DriveError::EntryNameInvalid)
    );
    assert_eq!(check_tree_walk(&b("..")), Err(DriveError::EntryNameInvalid));
}

#[test]
fn absolute_paths_are_rejected() {
    assert_eq!(
        check_tree_walk(&b("/etc/passwd")),
        Err(DriveError::EntryNameInvalid)
    );
    assert_eq!(check_tree_walk(&b("/")), Err(DriveError::EntryNameInvalid));
}

#[test]
fn current_directory_and_empty_components_are_rejected() {
    assert_eq!(
        check_tree_walk(&b("./a")),
        Err(DriveError::EntryNameInvalid)
    );
    assert_eq!(
        check_tree_walk(&b("a/./b")),
        Err(DriveError::EntryNameInvalid)
    );
    assert_eq!(
        check_tree_walk(&b("a//b")),
        Err(DriveError::EntryNameInvalid)
    );
    assert_eq!(check_tree_walk(&b("a/")), Err(DriveError::EntryNameInvalid));
}

#[test]
fn ordinary_paths_are_accepted() {
    assert_eq!(check_tree_walk(&b("")), Ok(()));
    assert_eq!(check_tree_walk(&b("a")), Ok(()));
    assert_eq!(check_tree_walk(&b("a/b/c")), Ok(()));
    assert_eq!(check_tree_walk(&b("weird name.txt")), Ok(()));
    assert_eq!(check_tree_walk(&b("..a/b..")), Ok(()));
}

#[test]
fn box_path_splits_base_and_name() {
    let p = BoxPath::new(&b("root/a/b"));
    assert_eq!(p.base(), &b("root/a"));
    assert_eq!(p.name(), &b("b"));
    assert_eq!(p.rel_path(), &b("a/b"));
    assert_eq!(p.full_name(), b("root/a/b"));
}

#[test]
fn box_path_at_the_anchor() {
    let p = BoxPath::new(&b("root"));
    assert_eq!(p.base(), &b("root"));
    assert_eq!(p.name(), &b(""));
    assert_eq!(p.rel_path(), &b(""));
    assert_eq!(p.full_name(), b("root"));

    let q = BoxPath::new(&b("root/a"));
    assert_eq!(q.base(), &b("root"));
    assert_eq!(q.name(), &b("a"));
    assert_eq!(q.full_name(), b("root/a"));
}

#[test]
fn count_bounds_are_enforced() {
    assert!(!count_in_bounds(0));
    assert!(count_in_bounds(1));
    assert!(count_in_bounds(50));
    assert!(!count_in_bounds(51));
    let params = QueryParams {
        query: "f".to_string(),
        page: 0,
        count: 0,
    };
    assert!(!params.is_valid());
    let params = QueryParams {
        query: "f".to_string(),
        page: 0,
        count: 10,
    };
    assert!(params.is_valid());
}

#[test]
fn pagination_windows_the_names() {
    let names = vec![b("a"), b("b"), b("c"), b("d"), b("e")];
    assert_eq!(paginate(&names, 0, 2), vec![b("a"), b("b")]);
    assert_eq!(paginate(&names, 2, 2), vec![b("c"), b("d")]);
    assert_eq!(paginate(&names, 4, 2), vec![b("e")]);
    assert_eq!(paginate(&names, 5, 2), Vec::<Vec<u8>>::new());
    assert_eq!(paginate(&names, 0, 0), Vec::<Vec<u8>>::new());
}

#[test]
fn prefix_filter_keeps_order() {
    let names = vec![b("fd1"), b("fx"), b("fd2"), b("other")];
    assert_eq!(filter_prefixed(&names, &b("fd")), vec![b("fd1"), b("fd2")]);
    assert_eq!(filter_prefixed(&names, &b("")), names);
}

#[test]
fn box_path_parse_requires_the_anchor() {
    assert!(BoxPath::parse(&b("root/a")).is_some());
    assert!(BoxPath::parse(&b("root")).is_some());
    assert!(BoxPath::parse(&b("rootless")).is_some());
    assert!(BoxPath::parse(&b("other/a")).is_none());
    assert!(BoxPath::parse(&b("")).is_none());
}

#[test]
fn page_wraps_names() {
    let page = mibox::params::Page::from(vec!["a".to_string(), "b".to_string()]);
    assert_eq!(page.page, vec!["a".to_string(), "b".to_string()]);
}

#[test]
fn display_paths_prefix_and_strip() {
    assert_eq!(display_child_path(&b(""), &b("f.txt")), b("f.txt"));
    assert_eq!(display_child_path(&b("a/b"), &b("f.txt")), b("a/b/f.txt"));
    assert_eq!(previous_display(&b("a/b/c")), b("a/b"));
    assert_eq!(previous_display(&b("a")), b("root"));
    assert_eq!(previous_display(&b("")), b("root"));
}

#[test]
fn environment_names() {
    assert_eq!(Environment::Local.as_str(), "local");
    assert_eq!(Environment::Production.as_str(), "production");
}
