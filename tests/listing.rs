use file_tree::{arrange_level, entry_node, is_excluded, keys_in_order, node_precedes, wants_children, FileNode};

fn file(name: &str) -> FileNode {
    FileNode { name: name.to_string(), path: format!("root/{}", name), is_dir: false, children: None }
}

fn dir(name: &str, children: Vec<FileNode>) -> FileNode {
    FileNode { name: name.to_string(), path: format!("root/{}", name), is_dir: true, children: Some(children) }
}

fn names(nodes: &[FileNode]) -> Vec<String> {
    nodes.iter().map(|n| n.name.clone()).collect()
}

#[test]
fn scenario_root_with_hidden_and_ignored() {
    let entries = vec![
        file("B.txt"),
        dir("a", vec![]),
        file(".hidden"),
        dir("node_modules", vec![file("index.js")]),
    ];
    let r = arrange_level(entries);
    assert_eq!(names(&r), vec!["a", "B.txt"]);
    assert!(r[0].is_dir);
    assert_eq!(r[0].children.as_ref().map(|c| c.len()), Some(0));
    assert!(!r[1].is_dir);
    assert!(r[1].children.is_none());
}

#[test]
fn directories_before_files_case_insensitive() {
    let entries = vec![
        file("b.txt"),
        dir("Zeta", vec![]),
        file("A.txt"),
        dir("alpha", vec![]),
        file("C.md"),
        dir("Beta", vec![]),
    ];
    let r = arrange_level(entries);
    assert_eq!(names(&r), vec!["alpha", "Beta", "Zeta", "A.txt", "b.txt", "C.md"]);
}

#[test]
fn names_differing_only_by_case_keep_their_order() {
    let r = arrange_level(vec![file("readme"), file("README"), dir("Src", vec![]), dir("src", vec![])]);
    assert_eq!(names(&r), vec!["Src", "src", "readme", "README"]);
    let r = arrange_level(vec![file("README"), file("readme")]);
    assert_eq!(names(&r), vec!["README", "readme"]);
}

#[test]
fn ignored_and_hidden_names_are_excluded() {
    for name in [".git", ".env", "node_modules", "target", "__pycache__", "."] {
        assert!(is_excluded(name), "{}", name);
        assert!(!wants_children(name, true, true), "{}", name);
    }
    for name in ["git", "env", "node_module", "targets", "Target", "src", "a.b", ""] {
        assert!(!is_excluded(name), "{}", name);
    }
}

#[test]
fn excluded_entries_leave_whole_subtree_out() {
    let entries = vec![
        dir(".git", vec![file("HEAD")]),
        file(".env"),
        dir("target", vec![dir("debug", vec![])]),
        dir("__pycache__", vec![]),
        dir("node_modules", vec![]),
    ];
    assert!(arrange_level(entries).is_empty());
}

#[test]
fn empty_level_stays_empty() {
    assert!(arrange_level(vec![]).is_empty());
}

#[test]
fn expansion_only_for_shown_directories_of_recursive_listing() {
    assert!(wants_children("src", true, true));
    assert!(!wants_children("src", true, false));
    assert!(!wants_children("main.rs", false, true));
    assert!(!wants_children("main.rs", false, false));
}

#[test]
fn entry_node_children_presence() {
    let n = entry_node("a".to_string(), "root/a".to_string(), true, true, vec![file("x")]);
    assert_eq!(n.children.as_ref().map(|c| c.len()), Some(1));
    let n = entry_node("a".to_string(), "root/a".to_string(), true, false, vec![]);
    assert!(n.children.is_none());
    let n = entry_node("f".to_string(), "root/f".to_string(), false, true, vec![]);
    assert!(n.children.is_none());
    assert_eq!(n.name, "f");
    assert_eq!(n.path, "root/f");
    assert!(!n.is_dir);
}

#[test]
fn nested_listing_is_arranged_at_every_level() {
    let inner = arrange_level(vec![file("z"), file(".cache"), dir("Y", vec![])]);
    let top = arrange_level(vec![
        file("m"),
        entry_node("D".to_string(), "root/D".to_string(), true, true, inner),
        entry_node("target".to_string(), "root/target".to_string(), true, true, vec![]),
    ]);
    assert_eq!(names(&top), vec!["D", "m"]);
    let kids = top[0].children.as_ref().unwrap();
    assert_eq!(names(kids), vec!["Y", "z"]);
}

#[test]
fn order_of_keys_and_nodes() {
    let a: Vec<char> = "abc".chars().collect();
    let b: Vec<char> = "abd".chars().collect();
    let p: Vec<char> = "ab".chars().collect();
    assert!(keys_in_order(false, &a, false, &b));
    assert!(!keys_in_order(false, &b, false, &a));
    assert!(keys_in_order(false, &p, false, &a));
    assert!(!keys_in_order(false, &a, false, &p));
    assert!(keys_in_order(true, &b, false, &a));
    assert!(!keys_in_order(false, &a, true, &b));
    assert!(keys_in_order(false, &a, false, &a));
    assert!(node_precedes(&file("Apple"), &file("banana")));
    assert!(!node_precedes(&file("banana"), &file("Apple")));
    assert!(node_precedes(&file("ABC"), &file("abc")));
    assert!(node_precedes(&dir("zz", vec![]), &file("aa")));
    assert!(node_precedes(&file("apple"), &file("Banana")));
    assert!(!node_precedes(&file("Banana"), &file("apple")));
}
