use dirtree::materialize::materialize;
use dirtree::plan::create_planned;
use dirtree::plan::creation_paths;
use dirtree::tree::DirEntry;
use dirtree::tree::DirNode;
use dirtree::MemFs;

fn leaf(name: &str) -> DirEntry {
    DirEntry { name: String::from(name), child: None }
}

fn subtree(name: &str, entries: Vec<DirEntry>) -> DirEntry {
    DirEntry { name: String::from(name), child: Some(DirNode { entries }) }
}

fn path(segs: &[&str]) -> Vec<String> {
    let mut p = Vec::new();
    for s in segs {
        p.push(String::from(*s));
    }
    p
}

#[test]
fn test_creation_paths_lists_every_directory_once() {
    let tree = DirNode {
        entries: vec![
            subtree(
                "japan",
                vec![
                    subtree("tokyo", vec![leaf("shibuya"), leaf("shinjuku")]),
                    leaf("osaka"),
                    leaf("nagoya"),
                ],
            ),
            subtree("malaysia", vec![leaf("kuala_lumpur")]),
            leaf("singapore"),
        ],
    };
    let paths = creation_paths(&tree);
    assert_eq!(paths.len(), 9);
    let want = [
        path(&["japan"]),
        path(&["japan", "tokyo"]),
        path(&["japan", "tokyo", "shibuya"]),
        path(&["japan", "tokyo", "shinjuku"]),
        path(&["japan", "osaka"]),
        path(&["japan", "nagoya"]),
        path(&["malaysia"]),
        path(&["malaysia", "kuala_lumpur"]),
        path(&["singapore"]),
    ];
    for w in &want {
        assert!(paths.contains(w), "{} is missing", w.join("/"));
    }
    for i in 0..paths.len() {
        for j in 0..i {
            assert_ne!(paths[i], paths[j]);
        }
    }
}

#[test]
fn test_creation_paths_parents_come_first() {
    let tree = DirNode {
        entries: vec![subtree(
            "a",
            vec![subtree("b", vec![subtree("c", vec![leaf("d")])]), leaf("e")],
        )],
    };
    let paths = creation_paths(&tree);
    assert_eq!(paths.len(), 5);
    for i in 0..paths.len() {
        if paths[i].len() > 1 {
            let parent = paths[i][..paths[i].len() - 1].to_vec();
            let at = paths.iter().position(|p| *p == parent);
            assert!(at.is_some(), "parent of {} is missing", paths[i].join("/"));
            assert!(at.unwrap() < i, "parent of {} comes too late", paths[i].join("/"));
        }
    }
}

#[test]
fn test_creation_paths_empty_tree() {
    let paths = creation_paths(&DirNode::new());
    assert_eq!(paths.len(), 0);
}

#[test]
fn test_create_planned_matches_materialize() {
    let tree = DirNode {
        entries: vec![
            subtree(
                "japan",
                vec![subtree("tokyo", vec![leaf("shibuya")]), leaf("osaka")],
            ),
            leaf("singapore"),
        ],
    };
    let base = path(&["base"]);

    let mut planned = MemFs::new();
    assert!(planned.create_dir(&base).is_ok());
    assert!(create_planned(&mut planned, &base, &tree).is_ok());

    let mut walked = MemFs::new();
    assert!(walked.create_dir(&base).is_ok());
    assert!(materialize(&mut walked, &base, &tree).is_ok());

    assert_eq!(planned.dir_count(), walked.dir_count());
    let want = [
        path(&["base", "japan"]),
        path(&["base", "japan", "tokyo"]),
        path(&["base", "japan", "tokyo", "shibuya"]),
        path(&["base", "japan", "osaka"]),
        path(&["base", "singapore"]),
    ];
    for w in &want {
        assert!(planned.contains_dir(w));
        assert!(walked.contains_dir(w));
    }
    assert_eq!(planned.dir_count(), 2 + want.len());
}
