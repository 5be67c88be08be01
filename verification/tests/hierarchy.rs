use dirmap::DirError;
use dirmap::DirFile;
use dirmap::DirHierarchy;
use dirmap::DirMapSingle;
use dirmap::DirSingle;

#[test]
fn directory() {
    let mut tree: DirMapSingle<bool> = DirMapSingle::new("Root");
    tree.add_dir("added_directory", DirSingle::new()).unwrap();
    tree.create_dir("created_directory").unwrap();
    tree.insert_dir("created_directory/.inserted_directory", DirSingle::new()).unwrap();

    tree.borrow_dir("created_directory/.inserted_directory").unwrap();

    tree.tree();

    tree.create_dir("created_directory/.inserted_directory/").unwrap();

    assert_eq!(
        tree.borrow_dir("created_directory/.inserted_directory/.||#:0").unwrap().get_name(),
        ".||#:0"
    );

    assert_eq!(
        tree.borrow_dir("created_directory").unwrap(),
        tree.borrow_dir("created_directory/.").unwrap()
    );
}

#[test]
fn new_directory_is_unassigned() {
    let d: DirSingle<u8> = DirSingle::new();
    assert_eq!(d.get_name(), "UNASSIGNED DIRECTORY");
    assert_eq!(d.get_path(), "EMPTY PATH");
    assert_eq!(d.get_depth(), 0);
    assert_eq!(d.obtain_file(), None);
    assert!(d.dir_names().is_empty());
}

#[test]
fn new_tree_is_a_root() {
    let tree: DirMapSingle<u8> = DirMapSingle::new("Root");
    assert_eq!(tree.get_name(), "Root");
    assert_eq!(tree.get_path(), "");
    assert_eq!(tree.get_depth(), 0);
    assert!(tree.crawl().is_empty());
}

#[test]
fn created_directory_is_stamped() {
    let mut tree: DirMapSingle<u8> = DirMapSingle::new("Root");
    assert_eq!(tree.create_dir("a").unwrap(), "a");
    assert_eq!(tree.create_dir("a/b").unwrap(), "b");
    assert_eq!(tree.create_dir("a/b/c").unwrap(), "c");
    let a = tree.borrow_dir("a").unwrap();
    assert_eq!(a.get_name(), "a");
    assert_eq!(a.get_path(), "a");
    assert_eq!(a.get_depth(), 1);
    let b = tree.borrow_dir("a/b").unwrap();
    assert_eq!(b.get_name(), "b");
    assert_eq!(b.get_path(), "a/b");
    assert_eq!(b.get_depth(), 2);
    let c = tree.borrow_dir("a/b/c").unwrap();
    assert_eq!(c.get_path(), "a/b/c");
    assert_eq!(c.get_depth(), 3);
}

#[test]
fn child_of_unattached_directory_carries_its_path() {
    let mut d: DirSingle<u8> = DirSingle::new();
    d.create_dir("x").unwrap();
    let x = d.obtain_dir("x").unwrap();
    assert_eq!(x.get_path(), "EMPTY PATH/x");
    assert_eq!(x.get_depth(), 1);
}

#[test]
fn added_directory_is_stamped_with_all_below_it() {
    let mut c: DirSingle<bool> = DirSingle::new();
    c.create_dir("b").unwrap();
    c.create_dir("b/.deep").unwrap();
    let mut d = DirMapSingle::<bool>::new("Root").directory;
    assert_eq!(d.add_dir("a", c), Ok("a".to_string()));
    assert_eq!(d.borrow_dir("a").unwrap().get_path(), "a");
    assert_eq!(d.borrow_dir("a").unwrap().get_depth(), 1);
    assert_eq!(d.borrow_dir("a/b").unwrap().get_name(), "b");
    assert_eq!(d.borrow_dir("a/b").unwrap().get_path(), "a/b");
    assert_eq!(d.borrow_dir("a/b").unwrap().get_depth(), 2);
    assert_eq!(d.borrow_dir("a/b/.deep").unwrap().get_path(), "a/b/.deep");
    assert_eq!(d.borrow_dir("a/b/.deep").unwrap().get_depth(), 3);
}

#[test]
fn second_add_fails_and_changes_nothing() {
    let mut tree: DirMapSingle<u8> = DirMapSingle::new("Root");
    tree.create_dir("a").unwrap();
    assert_eq!(tree.create_dir("a"), Err(DirError::NameInUse("a".to_string())));
    assert_eq!(tree.add_dir("a", DirSingle::new()), Err(DirError::NameInUse("a".to_string())));
    assert_eq!(tree.insert_dir("a", DirSingle::new()), Err(DirError::NameInUse("a".to_string())));
    assert_eq!(tree.dir_names(), vec!["a".to_string()]);
    assert_eq!(tree.crawl().len(), 1);
}

#[test]
fn alias_cannot_be_a_name() {
    let mut tree: DirMapSingle<u8> = DirMapSingle::new("Root");
    assert_eq!(
        tree.add_dir(".", DirSingle::new()),
        Err(DirError::InvalidPath(
            "The special symbol '.' is used to refer to 'self' and is not available for use"
                .to_string()
        ))
    );
    assert!(tree.dir_names().is_empty());
}

#[test]
fn alias_is_the_directory_itself() {
    let mut tree: DirMapSingle<u8> = DirMapSingle::new("Root");
    tree.create_dir("sub").unwrap();
    tree.create_dir("sub/inner").unwrap();
    assert_eq!(tree.obtain_dir(".").unwrap().get_name(), "Root");
    assert_eq!(tree.borrow_dir("sub/.").unwrap().get_path(), "sub");
    assert_eq!(tree.borrow_dir("./sub/./inner/.").unwrap().get_path(), "sub/inner");
    assert_eq!(tree.create_dir("./sub/./other").unwrap(), "other");
    assert_eq!(tree.borrow_dir("sub/other").unwrap().get_depth(), 2);
}

#[test]
fn anonymous_names_count_up() {
    let mut tree: DirMapSingle<u8> = DirMapSingle::new("Root");
    assert_eq!(tree.create_dir("").unwrap(), ".||#:0");
    assert_eq!(tree.create_dir("").unwrap(), ".||#:1");
    tree.create_dir("named").unwrap();
    assert_eq!(tree.add_dir("", DirSingle::new()).unwrap(), ".||#:3");
    assert_eq!(tree.borrow_dir(".||#:3").unwrap().get_path(), ".||#:3");
    assert_eq!(tree.create_dir("named/").unwrap(), ".||#:0");
    assert_eq!(tree.borrow_dir("named/.||#:0").unwrap().get_path(), "named/.||#:0");
}

#[test]
fn anonymous_name_skips_taken_names() {
    let mut tree: DirMapSingle<u8> = DirMapSingle::new("Root");
    tree.create_dir(".||#:1").unwrap();
    assert_eq!(tree.create_dir("").unwrap(), ".||#:2");
    tree.create_dir(".||#:12").unwrap();
    tree.create_dir(".||#:3").unwrap();
    tree.create_dir(".||#:4").unwrap();
    assert_eq!(tree.create_dir("").unwrap(), ".||#:5");
}

#[test]
fn anonymous_name_gives_up_after_a_hundred() {
    let mut tree: DirMapSingle<u8> = DirMapSingle::new("Root");
    for n in 100..200 {
        tree.create_dir(&format!(".||#:{}", n)).unwrap();
    }
    assert_eq!(
        tree.create_dir(""),
        Err(DirError::InvalidPath("Failed to generate name, max threshold reached!".to_string()))
    );
    assert_eq!(tree.dir_names().len(), 100);
    tree.take_dir(".||#:150").unwrap();
    assert_eq!(tree.create_dir("").unwrap(), ".||#:99");
}

#[test]
fn lookups_fail_predictably() {
    let mut tree: DirMapSingle<u8> = DirMapSingle::new("Root");
    tree.create_dir("a").unwrap();
    assert_eq!(tree.obtain_dir("").err(), Some(DirError::InvalidPath("".to_string())));
    assert_eq!(tree.obtain_dir("b").err(), Some(DirError::NoDir("b".to_string())));
    assert_eq!(tree.borrow_dir("a/b/c").err(), Some(DirError::NoDir("b".to_string())));
    assert_eq!(tree.borrow_dir("a//c").err(), Some(DirError::InvalidPath("".to_string())));
    assert_eq!(tree.borrow_dir("").err(), Some(DirError::InvalidPath("".to_string())));
    assert_eq!(tree.borrow_dir_mut("x/a").err(), Some(DirError::NoDir("x".to_string())));
    assert_eq!(tree.obtain_dir_mut("").err(), Some(DirError::InvalidPath("".to_string())));
    assert_eq!(
        tree.insert_dir("missing/x", DirSingle::new()),
        Err(DirError::NoDir("missing".to_string()))
    );
    assert_eq!(tree.take_dir("b").err(), Some(DirError::NoDir("b".to_string())));
    assert_eq!(tree.take_dir(".").err(), Some(DirError::NoDir(".".to_string())));
    assert_eq!(tree.remove_dir("a/b").err(), Some(DirError::NoDir("b".to_string())));
    assert_eq!(tree.remove_dir("z/b").err(), Some(DirError::NoDir("z".to_string())));
    assert_eq!(tree.dir_names(), vec!["a".to_string()]);
}

#[test]
fn take_then_add_restores() {
    let mut tree: DirMapSingle<u8> = DirMapSingle::new("Root");
    tree.create_dir("a").unwrap();
    tree.create_dir("a/x").unwrap();
    tree.create_dir("b").unwrap();
    tree.create_dir("c").unwrap();
    let before = tree.clone();
    let a = tree.take_dir("a").unwrap();
    assert_eq!(tree.borrow_dir("a").err(), Some(DirError::NoDir("a".to_string())));
    assert_eq!(a.get_name(), "a");
    assert_eq!(a.obtain_dir("x").unwrap().get_path(), "a/x");
    assert_eq!(tree.add_dir("a", a).unwrap(), "a");
    assert_eq!(tree, before);
    assert_eq!(tree.borrow_dir("a/x").unwrap().get_path(), "a/x");
    assert_eq!(tree.dir_names().len(), 3);
}

#[test]
fn remove_takes_a_nested_directory() {
    let mut tree: DirMapSingle<u8> = DirMapSingle::new("Root");
    tree.create_dir("a").unwrap();
    tree.create_dir("a/b").unwrap();
    tree.create_dir("a/b/c").unwrap();
    tree.create_dir("a/d").unwrap();
    let b = tree.remove_dir("a/b").unwrap();
    assert_eq!(b.get_name(), "b");
    assert_eq!(b.obtain_dir("c").unwrap().get_path(), "a/b/c");
    assert_eq!(tree.borrow_dir("a/b").err(), Some(DirError::NoDir("b".to_string())));
    assert_eq!(tree.borrow_dir("a/d").unwrap().get_name(), "d");
    assert_eq!(tree.crawl().len(), 2);
}

#[test]
fn moved_directory_is_stamped_again_with_what_lies_below() {
    let mut tree: DirMapSingle<u8> = DirMapSingle::new("Root");
    tree.create_dir("a").unwrap();
    tree.create_dir("a/x").unwrap();
    tree.create_dir("a/x/y").unwrap();
    tree.create_dir("b").unwrap();
    let a = tree.take_dir("a").unwrap();
    assert_eq!(tree.insert_dir("b/moved", a).unwrap(), "moved");
    let moved = tree.borrow_dir("b/moved").unwrap();
    assert_eq!(moved.get_name(), "moved");
    assert_eq!(moved.get_path(), "b/moved");
    assert_eq!(moved.get_depth(), 2);
    let x = tree.borrow_dir("b/moved/x").unwrap();
    assert_eq!(x.get_name(), "x");
    assert_eq!(x.get_path(), "b/moved/x");
    assert_eq!(x.get_depth(), 3);
    let y = tree.borrow_dir("b/moved/x/y").unwrap();
    assert_eq!(y.get_path(), "b/moved/x/y");
    assert_eq!(y.get_depth(), 4);
}

#[test]
fn take_then_add_keeps_the_records_at_every_level() {
    let mut c: DirSingle<u8> = DirSingle::new();
    c.create_dir("inner").unwrap();
    c.create_dir("inner/most").unwrap();
    let mut tree: DirMapSingle<u8> = DirMapSingle::new("Root");
    tree.create_dir("top").unwrap();
    tree.insert_dir("top/n", c).unwrap();
    let before = tree.clone();
    let top = tree.borrow_dir_mut("top").unwrap();
    let taken = top.take_dir("n").unwrap();
    assert_eq!(taken.obtain_dir("inner").unwrap().get_path(), "top/n/inner");
    assert_eq!(top.add_dir("n", taken), Ok("n".to_string()));
    assert_eq!(tree, before);
    let most = tree.borrow_dir("top/n/inner/most").unwrap();
    assert_eq!(most.get_name(), "most");
    assert_eq!(most.get_path(), "top/n/inner/most");
    assert_eq!(most.get_depth(), 4);
}

#[test]
fn hidden_child_is_found_and_records_its_name() {
    let mut tree: DirMapSingle<u8> = DirMapSingle::new("Root");
    assert_eq!(tree.create_dir(".hid"), Ok(".hid".to_string()));
    assert_eq!(tree.borrow_dir(".hid").unwrap().get_name(), ".hid");
    assert!(tree.listing(true).is_empty());
    assert!(!tree.tree().contains("hid"));
    assert!(!tree.tree_dir().contains("hid"));
}

#[test]
fn change_through_a_borrowed_directory() {
    let mut tree: DirMapSingle<u8> = DirMapSingle::new("Root");
    tree.create_dir("a").unwrap();
    tree.create_dir("a/b").unwrap();
    {
        let b = tree.borrow_dir_mut("a/b").unwrap();
        b.create_dir("c").unwrap();
        b.add_file(7);
    }
    assert_eq!(tree.borrow_dir("a/b/c").unwrap().get_path(), "a/b/c");
    assert_eq!(tree.borrow_file("a/b/"), Ok(Some(&7)));
    {
        let a = tree.obtain_dir_mut("a").unwrap();
        a.take_dir("b").unwrap();
    }
    assert_eq!(tree.borrow_dir("a/b").err(), Some(DirError::NoDir("b".to_string())));
}

#[test]
fn crawl_finds_every_directory_below() {
    let mut tree: DirMapSingle<u8> = DirMapSingle::new("Root");
    tree.create_dir("a").unwrap();
    tree.create_dir("a/b").unwrap();
    tree.create_dir("a/b/c").unwrap();
    tree.create_dir("d").unwrap();
    tree.create_dir(".hidden").unwrap();
    let found: Vec<String> = tree.crawl().iter().map(|d| d.get_path().clone()).collect();
    assert_eq!(
        found,
        vec![
            "a".to_string(),
            "a/b".to_string(),
            "a/b/c".to_string(),
            "d".to_string(),
            ".hidden".to_string()
        ]
    );
    assert!(tree.borrow_dir("a/b/c").unwrap().crawl().is_empty());
}

#[test]
fn equality_ignores_the_order_of_children() {
    let mut one: DirMapSingle<u8> = DirMapSingle::new("Root");
    one.create_dir("a").unwrap();
    one.create_dir("b").unwrap();
    let mut other: DirMapSingle<u8> = DirMapSingle::new("Root");
    other.create_dir("b").unwrap();
    other.create_dir("a").unwrap();
    assert_eq!(one, other);
    other.create_dir("a/x").unwrap();
    assert_ne!(one, other);
    one.create_dir("a/y").unwrap();
    assert_ne!(one, other);
    assert_ne!(one, DirMapSingle::new("Root"));
}

#[test]
fn clone_is_equal_and_apart() {
    let mut tree: DirMapSingle<u8> = DirMapSingle::new("Root");
    tree.create_dir("a").unwrap();
    tree.insert_file("a/", 3).unwrap();
    let copy = tree.clone();
    assert_eq!(copy, tree);
    tree.create_dir("a/b").unwrap();
    assert_ne!(copy, tree);
    assert_eq!(copy.borrow_dir("a/b").err(), Some(DirError::NoDir("b".to_string())));
    assert_eq!(copy.borrow_file("a/"), Ok(Some(&3)));
    assert_eq!(copy.obtain_dir("a").unwrap().get_path(), "a");
}

#[test]
fn default_is_a_root_without_a_name() {
    let d: DirSingle<u8> = DirSingle::default();
    assert_eq!(d.get_name(), "");
    assert_eq!(d.get_path(), "");
    assert_eq!(d.get_depth(), 0);
    let tree: DirMapSingle<u8> = DirMapSingle::default();
    assert_eq!(tree, DirMapSingle::new(""));
}

#[test]
fn tree_gives_up_its_root() {
    let mut tree: DirMapSingle<u8> = DirMapSingle::new("Root");
    tree.create_dir("a").unwrap();
    let root: DirSingle<u8> = tree.clone().into();
    assert_eq!(root.get_name(), "Root");
    assert_eq!(root.obtain_dir("a").unwrap().get_path(), "a");
    assert_eq!(tree.into_dir(), root);
}

#[test]
fn take_from_the_middle_keeps_the_others_findable() {
    let mut tree: DirMapSingle<u8> = DirMapSingle::new("Root");
    for name in ["a", "b", "c", "d", "e"] {
        tree.create_dir(name).unwrap();
        tree.create_dir(&format!("{}/inner", name)).unwrap();
    }
    assert_eq!(tree.take_dir("b").unwrap().get_name(), "b");
    assert_eq!(
        tree.dir_names(),
        vec!["a".to_string(), "e".to_string(), "c".to_string(), "d".to_string()]
    );
    for name in ["a", "c", "d", "e"] {
        assert_eq!(tree.obtain_dir(name).unwrap().get_name(), name);
        assert_eq!(
            tree.borrow_dir(&format!("{}/inner", name)).unwrap().get_path(),
            &format!("{}/inner", name)
        );
    }
    assert_eq!(tree.take_dir("d").unwrap().get_path(), "d");
    assert_eq!(tree.dir_names(), vec!["a".to_string(), "e".to_string(), "c".to_string()]);
    assert_eq!(tree.take_dir("a").unwrap().get_path(), "a");
    assert_eq!(tree.dir_names(), vec!["c".to_string(), "e".to_string()]);
    assert_eq!(tree.obtain_dir("e").unwrap().get_name(), "e");
    assert_eq!(tree.obtain_dir("c").unwrap().get_name(), "c");
    assert_eq!(tree.obtain_dir("a").err(), Some(DirError::NoDir("a".to_string())));
    assert_eq!(tree.create_dir("").unwrap(), ".||#:2");
    assert_eq!(tree.create_dir("b").unwrap(), "b");
    assert_eq!(tree.crawl().len(), 6);
}

#[test]
fn names_with_many_characters() {
    let mut tree: DirMapSingle<u8> = DirMapSingle::new("Wurzel");
    assert_eq!(tree.create_dir("süß").unwrap(), "süß");
    assert_eq!(tree.create_dir("süß/日本語").unwrap(), "日本語");
    let d = tree.borrow_dir("süß/日本語").unwrap();
    assert_eq!(d.get_path(), "süß/日本語");
    assert_eq!(d.get_depth(), 2);
    assert_eq!(tree.borrow_dir("süß/./日本語/.").unwrap().get_name(), "日本語");
}
