use dirmap::DirFile;
use dirmap::DirFiles;
use dirmap::DirHierarchy;
use dirmap::DirMapMulti;
use dirmap::DirMapSingle;
use dirmap::Line;
use dirmap::LineKind;

fn line(guide: &str, kind: LineKind, label: &str) -> Line {
    Line { guide: guide.to_string(), kind, label: label.to_string() }
}

#[test]
fn listing_shows_directories_level_by_level() {
    let mut tree: DirMapSingle<u8> = DirMapSingle::new("Root");
    tree.create_dir("a").unwrap();
    tree.create_dir("a/b").unwrap();
    tree.create_dir("a/b/c").unwrap();
    tree.create_dir("d").unwrap();
    assert_eq!(
        tree.listing(false),
        vec![
            line("\n  |-> ", LineKind::Directory, "a"),
            line("\n  |    |-> ", LineKind::Directory, "b"),
            line("\n  |    |    |-> ", LineKind::Directory, "c"),
            line("\n  |-> ", LineKind::Directory, "d"),
        ]
    );
}

#[test]
fn listing_leaves_hidden_directories_out() {
    let mut tree: DirMapSingle<u8> = DirMapSingle::new("Root");
    tree.create_dir("shown").unwrap();
    tree.create_dir(".hidden").unwrap();
    tree.create_dir(".hidden/below").unwrap();
    tree.create_dir("").unwrap();
    tree.create_dir("shown/.inner").unwrap();
    assert_eq!(tree.listing(true), vec![line("\n  |-> ", LineKind::Directory, "shown")]);
    assert_eq!(tree.borrow_dir(".hidden/below").unwrap().get_path(), ".hidden/below");
    assert_eq!(tree.borrow_dir(".||#:2").unwrap().get_name(), ".||#:2");
    assert_eq!(tree.borrow_dir("shown/.inner").unwrap().get_depth(), 2);
    let text = tree.tree_dir();
    assert!(text.starts_with("> "));
    assert!(text.contains("Root"));
    assert!(text.contains("shown"));
    assert!(!text.contains("hidden"));
    assert!(!text.contains("inner"));
    assert!(!text.contains("below"));
    assert!(!text.contains("#"));
}

#[test]
fn listing_shows_the_file_of_a_directory() {
    let mut tree: DirMapSingle<u8> = DirMapSingle::new("Root");
    tree.create_dir("a").unwrap();
    tree.add_file(1);
    tree.insert_file("a/", 2).unwrap();
    assert_eq!(
        tree.listing(true),
        vec![
            line("\n  |-> ", LineKind::File, "FILE"),
            line("\n  |-> ", LineKind::Directory, "a"),
            line("\n  |    |-> ", LineKind::File, "FILE"),
        ]
    );
    assert_eq!(tree.listing(false), vec![line("\n  |-> ", LineKind::Directory, "a")]);
    assert!(tree.tree().contains("FILE"));
    assert!(!tree.tree_dir().contains("FILE"));
    assert_eq!(tree.tree().matches('\n').count(), 3);
    assert_eq!(tree.tree_dir().matches('\n').count(), 1);
}

#[test]
fn listing_shows_named_files_but_not_hidden_ones() {
    let mut tree: DirMapMulti<u8> = DirMapMulti::new("Root");
    tree.create_dir("a").unwrap();
    tree.add_file("one", 1).unwrap();
    tree.add_file(".secret", 2).unwrap();
    tree.insert_file("a/two", 3).unwrap();
    tree.create_dir(".gone").unwrap();
    tree.insert_file(".gone/three", 4).unwrap();
    assert_eq!(
        tree.listing(true),
        vec![
            line("\n  |-> ", LineKind::File, "one"),
            line("\n  |-> ", LineKind::Directory, "a"),
            line("\n  |    |-> ", LineKind::File, "two"),
        ]
    );
    assert_eq!(tree.listing(false), vec![line("\n  |-> ", LineKind::Directory, "a")]);
    assert_eq!(tree.obtain_file(".secret"), Ok(&2));
    assert_eq!(tree.borrow_file(".gone/three"), Ok(&4));
    let text = tree.tree();
    assert!(text.contains("one") && text.contains("two"));
    assert!(!text.contains("secret") && !text.contains("three"));
    assert!(!tree.tree_dir().contains("one"));
}

#[test]
fn tree_shows_every_line_in_order() {
    let mut tree: DirMapMulti<u8> = DirMapMulti::new("Root");
    tree.add_file("first", 1).unwrap();
    tree.create_dir("alpha").unwrap();
    tree.insert_file("alpha/second", 2).unwrap();
    tree.create_dir("omega").unwrap();
    let text = tree.tree();
    let mut at = 0;
    for piece in [
        "> ", "Root", "\n  |-> ", "first", "\n  |-> ", "alpha", "\n  |    |-> ", "second",
        "\n  |-> ", "omega",
    ] {
        let found = text[at..].find(piece).expect(piece);
        at += found + piece.len();
    }
    let dirs = tree.tree_dir();
    let mut at = 0;
    for piece in ["> ", "Root", "\n  |-> ", "alpha", "\n  |-> ", "omega"] {
        let found = dirs[at..].find(piece).expect(piece);
        at += found + piece.len();
    }
    assert!(!dirs.contains("first") && !dirs.contains("second"));
}

#[test]
fn tree_of_an_empty_tree_is_its_title() {
    let tree: DirMapSingle<u8> = DirMapSingle::new("Root");
    assert!(tree.listing(true).is_empty());
    assert!(tree.tree().starts_with("> "));
    assert!(tree.tree().contains("Root"));
    assert_eq!(tree.tree().matches('\n').count(), 0);
}
