use dirtree::CreateErrorKind;
use dirtree::MemFs;

fn path(segs: &[&str]) -> Vec<String> {
    let mut p = Vec::new();
    for s in segs {
        p.push(String::from(*s));
    }
    p
}

#[test]
fn test_new_store_holds_only_the_root() {
    let fs = MemFs::new();
    assert!(fs.contains_dir(&path(&[])));
    assert!(!fs.contains_dir(&path(&["anything"])));
    assert_eq!(fs.dir_count(), 1);
}

#[test]
fn test_create_dir_under_root() {
    let mut fs = MemFs::new();
    assert!(fs.create_dir(&path(&["a"])).is_ok());
    assert!(fs.contains_dir(&path(&["a"])));
    assert!(fs.create_dir(&path(&["a", "b"])).is_ok());
    assert!(fs.contains_dir(&path(&["a", "b"])));
    assert!(!fs.contains_dir(&path(&["b"])));
}

#[test]
fn test_create_dir_does_not_recreate() {
    let mut fs = MemFs::new();
    assert!(fs.create_dir(&path(&["a"])).is_ok());
    match fs.create_dir(&path(&["a"])) {
        Ok(()) => panic!("recreation must fail"),
        Err(e) => {
            assert!(matches!(e.kind, CreateErrorKind::AlreadyExists));
            assert_eq!(e.path, path(&["a"]));
        },
    }
    assert_eq!(fs.dir_count(), 2);
}

#[test]
fn test_create_dir_needs_its_parent() {
    let mut fs = MemFs::new();
    match fs.create_dir(&path(&["a", "b"])) {
        Ok(()) => panic!("creation without a parent must fail"),
        Err(e) => {
            assert!(matches!(e.kind, CreateErrorKind::ParentMissing));
            assert_eq!(e.path, path(&["a", "b"]));
        },
    }
    assert!(!fs.contains_dir(&path(&["a", "b"])));
    assert_eq!(fs.dir_count(), 1);
}
