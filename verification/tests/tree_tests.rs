use dirtree::tree::name_ok;
use dirtree::tree::DirEntry;
use dirtree::tree::DirNode;

fn leaf(name: &str) -> DirEntry {
    DirEntry { name: String::from(name), child: None }
}

fn subtree(name: &str, entries: Vec<DirEntry>) -> DirEntry {
    DirEntry { name: String::from(name), child: Some(DirNode { entries }) }
}

#[test]
fn test_name_ok_accepts_plain_names() {
    assert!(name_ok(&String::from("japan")));
    assert!(name_ok(&String::from("kuala_lumpur")));
    assert!(name_ok(&String::from(".hidden")));
    assert!(name_ok(&String::from("...")));
    assert!(name_ok(&String::from("two words")));
}

#[test]
fn test_name_ok_rejects_unusable_names() {
    assert!(!name_ok(&String::from("")));
    assert!(!name_ok(&String::from(".")));
    assert!(!name_ok(&String::from("..")));
    assert!(!name_ok(&String::from("a/b")));
    assert!(!name_ok(&String::from("/")));
    assert!(!name_ok(&String::from("a\\b")));
}

#[test]
fn test_well_formed_tree() {
    let tree = DirNode {
        entries: vec![
            subtree("japan", vec![leaf("tokyo"), leaf("osaka")]),
            leaf("singapore"),
        ],
    };
    assert!(tree.is_well_formed());
    assert!(DirNode::new().is_well_formed());
}

#[test]
fn test_duplicate_siblings_rejected() {
    let tree = DirNode { entries: vec![leaf("japan"), leaf("japan")] };
    assert!(!tree.is_well_formed());
    // distinct parents may reuse a name for their children
    let nested = DirNode {
        entries: vec![
            subtree("japan", vec![leaf("office")]),
            subtree("malaysia", vec![leaf("office")]),
        ],
    };
    assert!(nested.is_well_formed());
}

#[test]
fn test_bad_name_deep_in_tree_rejected() {
    let tree = DirNode {
        entries: vec![subtree("japan", vec![subtree("tokyo", vec![leaf("shibuya/annex")])])],
    };
    assert!(!tree.is_well_formed());
    let dotted = DirNode { entries: vec![subtree("japan", vec![leaf("..")])] };
    assert!(!dotted.is_well_formed());
}
