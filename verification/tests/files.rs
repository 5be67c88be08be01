use dirmap::DirError;
use dirmap::DirFile;
use dirmap::DirFiles;
use dirmap::DirHierarchy;
use dirmap::DirMapMulti;
use dirmap::DirMapSingle;
use dirmap::DirMulti;
use dirmap::DirSingle;

#[test]
fn single_file_is_overwritten() {
    let mut d: DirSingle<u8> = DirSingle::new();
    assert_eq!(d.add_file(1), None);
    assert_eq!(d.add_file(2), Some(1));
    assert_eq!(d.obtain_file(), Some(&2));
    assert_eq!(d.take_file(), Some(2));
    assert_eq!(d.take_file(), None);
    assert_eq!(d.obtain_file(), None);
}

#[test]
fn single_file_is_changed_in_place() {
    let mut tree: DirMapSingle<u8> = DirMapSingle::new("Root");
    assert!(tree.obtain_file_mut().is_none());
    tree.add_file(1);
    *tree.obtain_file_mut().unwrap() = 5;
    assert_eq!(tree.obtain_file(), Some(&5));
    tree.create_dir("a").unwrap();
    tree.insert_file("a/", 7).unwrap();
    *tree.borrow_file_mut("a/").unwrap().unwrap() += 1;
    assert_eq!(tree.borrow_file("a/"), Ok(Some(&8)));
    assert_eq!(tree.obtain_file(), Some(&5));
}

#[test]
fn single_file_is_addressed_through_the_directory_before_the_last_separator() {
    let mut tree: DirMapSingle<u8> = DirMapSingle::new("Root");
    tree.create_dir("a").unwrap();
    tree.create_dir("a/b").unwrap();
    assert_eq!(tree.insert_file("", 1), Ok(None));
    assert_eq!(tree.insert_file("anything", 2), Ok(Some(1)));
    assert_eq!(tree.obtain_file(), Some(&2));
    assert_eq!(tree.insert_file("a/", 3), Ok(None));
    assert_eq!(tree.insert_file("a/b/value", 4), Ok(None));
    assert_eq!(tree.borrow_file("a/value"), Ok(Some(&3)));
    assert_eq!(tree.borrow_file("a/b/"), Ok(Some(&4)));
    assert_eq!(tree.borrow_file("x"), Ok(Some(&2)));
    assert_eq!(tree.borrow_dir("a").unwrap().obtain_file(), Some(&3));
    assert_eq!(tree.remove_file("a/b/x"), Ok(Some(4)));
    assert_eq!(tree.remove_file("a/b/x"), Ok(None));
    assert_eq!(tree.remove_file("a/"), Ok(Some(3)));
    assert_eq!(tree.remove_file(""), Ok(Some(2)));
    assert_eq!(tree.borrow_file(""), Ok(None));
}

#[test]
fn single_file_paths_fail_like_directory_paths() {
    let mut tree: DirMapSingle<u8> = DirMapSingle::new("Root");
    tree.create_dir("a").unwrap();
    assert_eq!(tree.insert_file("b/", 1), Err(DirError::NoDir("b".to_string())));
    assert_eq!(tree.insert_file("a/b/", 1), Err(DirError::NoDir("b".to_string())));
    assert_eq!(tree.insert_file("/x", 1), Err(DirError::InvalidPath("".to_string())));
    assert_eq!(tree.remove_file("b/x"), Err(DirError::NoDir("b".to_string())));
    assert_eq!(tree.borrow_file("a//x"), Err(DirError::InvalidPath("".to_string())));
    assert_eq!(tree.borrow_file_mut("b/").err(), Some(DirError::NoDir("b".to_string())));
    assert_eq!(tree.borrow_file("a/"), Ok(None));
}

#[test]
fn multi_file_is_not_overwritten() {
    let mut d: DirMulti<u8> = DirMulti::new();
    assert_eq!(d.add_file("x", 1), Ok(()));
    assert_eq!(d.add_file("x", 2), Err(DirError::NameInUse("x".to_string())));
    assert_eq!(d.obtain_file("x"), Ok(&1));
    assert_eq!(d.add_file("y", 2), Ok(()));
    assert_eq!(d.file_names(), vec!["x".to_string(), "y".to_string()]);
    assert_eq!(d.take_file("x"), Ok(1));
    assert_eq!(d.take_file("x"), Err(DirError::NoFile("x".to_string())));
    assert_eq!(d.obtain_file("x"), Err(DirError::NoFile("x".to_string())));
    assert_eq!(d.obtain_file("y"), Ok(&2));
    assert_eq!(d.file_names(), vec!["y".to_string()]);
}

#[test]
fn multi_file_names_may_be_anything() {
    let mut d: DirMulti<u8> = DirMulti::new();
    assert_eq!(d.add_file("", 1), Ok(()));
    assert_eq!(d.add_file(".", 2), Ok(()));
    assert_eq!(d.obtain_file(""), Ok(&1));
    assert_eq!(d.obtain_file("."), Ok(&2));
    assert_eq!(d.borrow_file("."), Ok(&2));
}

#[test]
fn multi_file_is_changed_in_place() {
    let mut tree: DirMapMulti<u8> = DirMapMulti::new("Root");
    tree.add_file("x", 1).unwrap();
    *tree.obtain_file_mut("x").unwrap() = 5;
    assert_eq!(tree.obtain_file("x"), Ok(&5));
    assert_eq!(tree.obtain_file_mut("y").err(), Some(DirError::NoFile("y".to_string())));
    tree.create_dir("a").unwrap();
    tree.insert_file("a/f", 7).unwrap();
    *tree.borrow_file_mut("a/f").unwrap() += 1;
    assert_eq!(tree.borrow_file("a/f"), Ok(&8));
    assert_eq!(tree.obtain_file("x"), Ok(&5));
}

#[test]
fn multi_file_paths() {
    let mut tree: DirMapMulti<u8> = DirMapMulti::new("Root");
    tree.create_dir("a").unwrap();
    tree.create_dir("a/b").unwrap();
    assert_eq!(tree.insert_file("top", 1), Ok(()));
    assert_eq!(tree.insert_file("a/mid", 2), Ok(()));
    assert_eq!(tree.insert_file("a/b/low", 3), Ok(()));
    assert_eq!(tree.insert_file("a/b/low", 4), Err(DirError::NameInUse("low".to_string())));
    assert_eq!(tree.insert_file("a/c/low", 4), Err(DirError::NoDir("c".to_string())));
    assert_eq!(tree.borrow_file("top"), Ok(&1));
    assert_eq!(tree.borrow_file("a/mid"), Ok(&2));
    assert_eq!(tree.borrow_file("a/./b/low"), Ok(&3));
    assert_eq!(tree.borrow_file("a/low"), Err(DirError::NoFile("low".to_string())));
    assert_eq!(tree.borrow_file("x/low"), Err(DirError::NoDir("x".to_string())));
    assert_eq!(tree.borrow_file_mut("a/low").err(), Some(DirError::NoFile("low".to_string())));
    assert_eq!(tree.remove_file("a/b/low"), Ok(3));
    assert_eq!(tree.remove_file("a/b/low"), Err(DirError::NoFile("low".to_string())));
    assert_eq!(tree.remove_file("a/x/low"), Err(DirError::NoDir("x".to_string())));
    assert_eq!(tree.remove_file("top"), Ok(1));
    assert_eq!(tree.borrow_dir("a").unwrap().file_names(), vec!["mid".to_string()]);
}

#[test]
fn multi_hierarchy_works_like_single() {
    let mut tree: DirMapMulti<u8> = DirMapMulti::new("Root");
    assert_eq!(tree.create_dir("a").unwrap(), "a");
    assert_eq!(tree.create_dir("a/").unwrap(), ".||#:0");
    assert_eq!(tree.add_dir("a", DirMulti::new()), Err(DirError::NameInUse("a".to_string())));
    assert_eq!(tree.borrow_dir("a/.||#:0/.").unwrap().get_path(), "a/.||#:0");
    assert_eq!(tree.borrow_dir("a/.||#:0").unwrap().get_depth(), 2);
    let taken = tree.remove_dir("a/.||#:0").unwrap();
    assert_eq!(taken.get_name(), ".||#:0");
    assert_eq!(tree.crawl().len(), 1);
    let copy = tree.clone();
    assert_eq!(copy, tree);
    tree.insert_file("a/f", 1).unwrap();
    assert_ne!(copy, tree);
    let root: DirMulti<u8> = tree.into();
    assert_eq!(root.get_name(), "Root");
    assert_eq!(DirMulti::<u8>::default().get_name(), "");
    assert_eq!(DirMulti::<u8>::new().get_path(), "EMPTY PATH");
}
