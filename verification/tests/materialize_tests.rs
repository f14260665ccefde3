use dirtree::materialize::materialize;
use dirtree::tree::DirEntry;
use dirtree::tree::DirNode;
use dirtree::CreateErrorKind;
use dirtree::MemFs;

fn leaf(name: &str) -> DirEntry {
    DirEntry { name: String::from(name), child: None }
}

fn subtree(name: &str, entries: Vec<DirEntry>) -> DirEntry {
    DirEntry { name: String::from(name), child: Some(DirNode { entries }) }
}

fn path(segs: &[&str]) -> Vec<String> {
    let mut p = Vec::new();
    for s in segs {
        p.push(String::from(*s));
    }
    p
}

fn country_tree() -> DirNode {
    DirNode {
        entries: vec![
            subtree(
                "japan",
                vec![
                    subtree("tokyo", vec![leaf("shibuya"), leaf("shinjuku")]),
                    leaf("osaka"),
                    leaf("nagoya"),
                ],
            ),
            subtree("malaysia", vec![leaf("kuala_lumpur")]),
            leaf("singapore"),
        ],
    }
}

#[test]
fn test_make_dirs() {
    let mut fs = MemFs::new();
    let base = path(&["make_dirs"]);
    assert!(fs.create_dir(&base).is_ok());

    let tree = country_tree();
    assert!(tree.is_well_formed());
    let result = materialize(&mut fs, &base, &tree);
    assert!(result.is_ok(), "want no error");

    let want_dirs = [
        vec!["japan"],
        vec!["japan", "nagoya"],
        vec!["japan", "osaka"],
        vec!["japan", "tokyo"],
        vec!["japan", "tokyo", "shibuya"],
        vec!["japan", "tokyo", "shinjuku"],
        vec!["malaysia"],
        vec!["malaysia", "kuala_lumpur"],
        vec!["singapore"],
    ];
    for wd in &want_dirs {
        let mut p = base.clone();
        for seg in wd {
            p.push(String::from(*seg));
        }
        assert!(fs.contains_dir(&p), "{} doesn't exist", wd.join("/"));
    }
}

#[test]
fn test_materialize_creates_nothing_else() {
    let mut fs = MemFs::new();
    let base = path(&["base"]);
    assert!(fs.create_dir(&base).is_ok());

    let tree = country_tree();
    assert!(materialize(&mut fs, &base, &tree).is_ok());

    // the root, the base, and the nine asked-for directories
    assert_eq!(fs.dir_count(), 11);
    assert!(!fs.contains_dir(&path(&["base", "france"])));
    assert!(!fs.contains_dir(&path(&["base", "japan", "kyoto"])));
    assert!(!fs.contains_dir(&path(&["japan"])));
}

#[test]
fn test_materialize_preexisting_directory_fails() {
    let mut fs = MemFs::new();
    let base = path(&["base"]);
    assert!(fs.create_dir(&base).is_ok());
    assert!(fs.create_dir(&path(&["base", "japan"])).is_ok());
    assert!(fs.create_dir(&path(&["base", "japan", "tokyo"])).is_ok());

    let tree = country_tree();
    match materialize(&mut fs, &base, &tree) {
        Ok(()) => panic!("materialize must report the existing directory"),
        Err(e) => {
            assert!(matches!(e.kind, CreateErrorKind::AlreadyExists));
            assert_eq!(e.path, path(&["base", "japan"]));
        },
    }
}

#[test]
fn test_materialize_empty_tree() {
    let mut fs = MemFs::new();
    let base = path(&["base"]);
    assert!(fs.create_dir(&base).is_ok());
    let before = fs.dir_count();

    let tree = DirNode::new();
    assert!(materialize(&mut fs, &base, &tree).is_ok());
    assert_eq!(fs.dir_count(), before);
}

#[test]
fn test_materialize_missing_base() {
    let mut fs = MemFs::new();
    let base = path(&["base"]);

    let tree = country_tree();
    match materialize(&mut fs, &base, &tree) {
        Ok(()) => panic!("materialize must fail when the base is missing"),
        Err(e) => {
            assert!(matches!(e.kind, CreateErrorKind::ParentMissing));
            assert_eq!(e.path, path(&["base", "japan"]));
        },
    }
    // nothing was created anywhere
    assert_eq!(fs.dir_count(), 1);
    assert!(!fs.contains_dir(&path(&["base", "japan"])));
    assert!(!fs.contains_dir(&path(&["base", "singapore"])));
}

#[test]
fn test_materialize_stops_at_first_failure() {
    let mut fs = MemFs::new();
    let base = path(&["base"]);
    assert!(fs.create_dir(&base).is_ok());
    // the first entry's directory already exists
    assert!(fs.create_dir(&path(&["base", "japan"])).is_ok());
    let before = fs.dir_count();

    let tree = country_tree();
    assert!(materialize(&mut fs, &base, &tree).is_err());
    // the walk aborted before its later siblings
    assert_eq!(fs.dir_count(), before);
    assert!(!fs.contains_dir(&path(&["base", "malaysia"])));
    assert!(!fs.contains_dir(&path(&["base", "singapore"])));
}
