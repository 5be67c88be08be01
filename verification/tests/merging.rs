use dirmap::DirError;
use dirmap::DirFile;
use dirmap::DirFiles;
use dirmap::DirHierarchy;
use dirmap::DirMapMulti;
use dirmap::DirMapSingle;
use dirmap::DirMulti;
use dirmap::DirSingle;

#[test]
fn merge_moves_children() {
    let mut tree: DirMapSingle<u8> = DirMapSingle::new("Root");
    tree.create_dir("a").unwrap();
    tree.create_dir("keep").unwrap();
    let mut donor: DirSingle<u8> = DirSingle::new();
    donor.create_dir("x").unwrap();
    donor.create_dir("y").unwrap();
    donor.create_dir("y/deep").unwrap();
    assert_eq!(tree.merge(donor), Ok(()));
    let mut names = tree.dir_names();
    names.sort();
    assert_eq!(names, vec!["a".to_string(), "keep".to_string(), "x".to_string(), "y".to_string()]);
    assert_eq!(tree.borrow_dir("x").unwrap().get_path(), "x");
    assert_eq!(tree.borrow_dir("y").unwrap().get_depth(), 1);
    assert_eq!(tree.borrow_dir("y/deep").unwrap().get_name(), "deep");
    assert_eq!(
        tree.dir_names(),
        vec!["a".to_string(), "keep".to_string(), "y".to_string(), "x".to_string()]
    );
}

#[test]
fn merge_into_a_nested_directory() {
    let mut tree: DirMapSingle<u8> = DirMapSingle::new("Root");
    tree.create_dir("a").unwrap();
    let mut donor: DirSingle<u8> = DirSingle::new();
    donor.create_dir("x").unwrap();
    tree.borrow_dir_mut("a").unwrap().merge(donor).unwrap();
    assert_eq!(tree.borrow_dir("a/x").unwrap().get_path(), "a/x");
    assert_eq!(tree.borrow_dir("a/x").unwrap().get_depth(), 2);
}

#[test]
fn merge_with_a_taken_name_changes_nothing() {
    let mut tree: DirMapSingle<u8> = DirMapSingle::new("Root");
    tree.create_dir("a").unwrap();
    tree.create_dir("a/inner").unwrap();
    tree.create_dir("b").unwrap();
    tree.add_file(1);
    let before = tree.clone();
    let mut donor: DirSingle<u8> = DirSingle::new();
    donor.create_dir("x").unwrap();
    donor.create_dir("b").unwrap();
    donor.create_dir("y").unwrap();
    assert_eq!(tree.merge(donor), Err(DirError::DuplicateName("b".to_string())));
    assert_eq!(tree, before);
    assert_eq!(tree.dir_names(), vec!["a".to_string(), "b".to_string()]);
}

#[test]
fn merge_reports_the_first_taken_name() {
    let mut tree: DirMapSingle<u8> = DirMapSingle::new("Root");
    tree.create_dir("a").unwrap();
    tree.create_dir("b").unwrap();
    let mut donor: DirSingle<u8> = DirSingle::new();
    donor.create_dir("x").unwrap();
    donor.create_dir("b").unwrap();
    donor.create_dir("a").unwrap();
    assert_eq!(tree.merge(donor), Err(DirError::DuplicateName("b".to_string())));
}

#[test]
fn merge_refuses_a_donor_with_a_file() {
    let mut tree: DirMapSingle<u8> = DirMapSingle::new("Root");
    tree.create_dir("a").unwrap();
    let before = tree.clone();
    let mut donor: DirSingle<u8> = DirSingle::new();
    donor.create_dir("x").unwrap();
    donor.add_file(9);
    assert_eq!(tree.merge(donor), Err(DirError::FileConflict));
    assert_eq!(tree, before);
    let mut clash: DirSingle<u8> = DirSingle::new();
    clash.create_dir("a").unwrap();
    clash.add_file(9);
    assert_eq!(tree.merge(clash), Err(DirError::FileConflict));
}

#[test]
fn merge_of_trees() {
    let mut tree: DirMapSingle<u8> = DirMapSingle::new("Root");
    let mut other: DirMapSingle<u8> = DirMapSingle::new("Other");
    other.create_dir("x").unwrap();
    tree.merge(other.into()).unwrap();
    assert_eq!(tree.borrow_dir("x").unwrap().get_path(), "x");
    assert_eq!(tree.get_name(), "Root");
}

#[test]
fn merge_moves_each_child_under_the_name_it_had() {
    let mut tree: DirMapSingle<u8> = DirMapSingle::new("Root");
    tree.create_dir("a").unwrap();
    let mut donor: DirSingle<u8> = DirSingle::new();
    donor.add_dir("a/x", DirSingle::new()).unwrap();
    donor.add_dir("nowhere/x", DirSingle::new()).unwrap();
    donor.create_dir("last").unwrap();
    assert_eq!(tree.merge(donor), Ok(()));
    assert_eq!(
        tree.dir_names(),
        vec!["a".to_string(), "last".to_string(), "nowhere/x".to_string(), "a/x".to_string()]
    );
    assert_eq!(tree.obtain_dir("a/x").unwrap().get_name(), "a/x");
    assert_eq!(tree.obtain_dir("a/x").unwrap().get_path(), "a/x");
    assert_eq!(tree.obtain_dir("nowhere/x").unwrap().get_depth(), 1);
    assert_eq!(tree.borrow_dir("a/x").err(), Some(DirError::NoDir("x".to_string())));
    assert!(tree.borrow_dir("a").unwrap().dir_names().is_empty());
}

#[test]
fn merge_stamps_all_that_it_moves() {
    let mut tree: DirMapSingle<u8> = DirMapSingle::new("Root");
    tree.create_dir("home").unwrap();
    let mut donor: DirSingle<u8> = DirSingle::new();
    donor.create_dir("x").unwrap();
    donor.create_dir("x/y").unwrap();
    assert_eq!(donor.borrow_dir("x/y").unwrap().get_path(), "EMPTY PATH/x/y");
    tree.borrow_dir_mut("home").unwrap().merge(donor).unwrap();
    assert_eq!(tree.borrow_dir("home/x").unwrap().get_path(), "home/x");
    assert_eq!(tree.borrow_dir("home/x/y").unwrap().get_path(), "home/x/y");
    assert_eq!(tree.borrow_dir("home/x/y").unwrap().get_depth(), 3);
}

#[test]
fn merge_multi_moves_files_and_children() {
    let mut tree: DirMapMulti<u8> = DirMapMulti::new("Root");
    tree.add_file("one", 1).unwrap();
    tree.create_dir("a").unwrap();
    let mut donor: DirMulti<u8> = DirMulti::new();
    donor.add_file("two", 2).unwrap();
    donor.add_file("three", 3).unwrap();
    donor.create_dir("b").unwrap();
    donor.insert_file("b/inner", 4).unwrap();
    assert_eq!(tree.merge(donor), Ok(()));
    assert_eq!(tree.obtain_file("one"), Ok(&1));
    assert_eq!(tree.obtain_file("two"), Ok(&2));
    assert_eq!(tree.obtain_file("three"), Ok(&3));
    assert_eq!(tree.borrow_file("b/inner"), Ok(&4));
    assert_eq!(tree.borrow_dir("b").unwrap().get_path(), "b");
    assert_eq!(
        tree.file_names(),
        vec!["one".to_string(), "three".to_string(), "two".to_string()]
    );
}

#[test]
fn merge_multi_with_a_taken_file_name_changes_nothing() {
    let mut tree: DirMapMulti<u8> = DirMapMulti::new("Root");
    tree.add_file("one", 1).unwrap();
    tree.create_dir("a").unwrap();
    let before = tree.clone();
    let mut donor: DirMulti<u8> = DirMulti::new();
    donor.add_file("zero", 0).unwrap();
    donor.add_file("one", 11).unwrap();
    donor.create_dir("a").unwrap();
    assert_eq!(tree.merge(donor), Err(DirError::DuplicateName("one".to_string())));
    assert_eq!(tree, before);
    assert_eq!(tree.obtain_file("one"), Ok(&1));
}

#[test]
fn merge_multi_with_a_taken_directory_name_changes_nothing() {
    let mut tree: DirMapMulti<u8> = DirMapMulti::new("Root");
    tree.add_file("one", 1).unwrap();
    tree.create_dir("a").unwrap();
    let before = tree.clone();
    let mut donor: DirMulti<u8> = DirMulti::new();
    donor.add_file("two", 2).unwrap();
    donor.create_dir("a").unwrap();
    assert_eq!(tree.merge(donor), Err(DirError::DuplicateName("a".to_string())));
    assert_eq!(tree, before);
    assert_eq!(tree.obtain_file("two").err(), Some(DirError::NoFile("two".to_string())));
}

#[test]
fn merge_multi_moves_each_file_under_the_name_it_had() {
    let mut tree: DirMapMulti<u8> = DirMapMulti::new("Root");
    tree.create_dir("a").unwrap();
    let mut donor: DirMulti<u8> = DirMulti::new();
    donor.add_file("a/f", 5).unwrap();
    donor.add_file("nowhere/f", 6).unwrap();
    donor.create_dir("b").unwrap();
    donor.insert_file("b/g", 7).unwrap();
    assert_eq!(tree.merge(donor), Ok(()));
    assert_eq!(tree.obtain_file("a/f"), Ok(&5));
    assert_eq!(tree.obtain_file("nowhere/f"), Ok(&6));
    assert_eq!(tree.borrow_file("a/f"), Err(DirError::NoFile("f".to_string())));
    assert_eq!(tree.borrow_file("b/g"), Ok(&7));
    assert_eq!(tree.borrow_dir("b").unwrap().get_path(), "b");
    assert_eq!(tree.file_names(), vec!["nowhere/f".to_string(), "a/f".to_string()]);
    assert_eq!(tree.dir_names(), vec!["a".to_string(), "b".to_string()]);
}
