//! The tree whose directories hold at most one file each.

use vstd::prelude::*;
use vstd::std_specs::cmp::PartialEqSpecImpl;
use vstd::std_specs::convert::FromSpecImpl;
use crate::error::DirError;
use crate::listing::Line;
use crate::model::NodeView;
use crate::table::plain_equality;
use crate::single::copied;
use crate::single::DirSingle;
use crate::traits::DirFile;
use crate::traits::DirHierarchy;
use crate::traits::DirNode;

verus! {

/// A named tree of directories that hold at most one file each. Every operation is
/// that of its root directory.
#[derive(Debug)]
pub struct DirMapSingle<T> {
    /// The root directory.
    pub directory: DirSingle<T>,
}

impl<T> DirMapSingle<T> {
    /// A tree named `name`, with nothing in it.
    pub fn new(name: &str) -> (tree: Self)
        ensures
            tree.wf(),
            tree.model() == NodeView::<Option<T>>::root(name@, None),
    {
        DirMapSingle { directory: DirSingle::root(name) }
    }

    /// The root directory, once the tree is given up.
    pub fn into_dir(self) -> (d: DirSingle<T>)
        ensures
            d == self.directory,
    {
        self.directory
    }
}

impl<T> View for DirMapSingle<T> {
    type V = NodeView<Option<T>>;

    open spec fn view(&self) -> NodeView<Option<T>> {
        self.model()
    }
}

impl<T> DirNode for DirMapSingle<T> {
    type Files = Option<T>;

    open spec fn model(&self) -> NodeView<Option<T>> {
        self.directory.model()
    }

    open spec fn wf(&self) -> bool {
        self.directory.wf()
    }

    proof fn lemma_valid(&self) {
        self.directory.lemma_valid();
    }
}

impl<T> DirHierarchy<DirSingle<T>> for DirMapSingle<T> {
    fn add_dir(&mut self, name: &str, directory: DirSingle<T>) -> (r: Result<String, DirError>) {
        self.directory.add_dir(name, directory)
    }

    fn insert_dir(&mut self, path: &str, directory: DirSingle<T>) -> (r: Result<String, DirError>) {
        self.directory.insert_dir(path, directory)
    }

    fn create_dir(&mut self, path: &str) -> (r: Result<String, DirError>) {
        self.directory.create_dir(path)
    }

    fn take_dir(&mut self, name: &str) -> (r: Result<DirSingle<T>, DirError>) {
        self.directory.take_dir(name)
    }

    fn remove_dir(&mut self, path: &str) -> (r: Result<DirSingle<T>, DirError>) {
        self.directory.remove_dir(path)
    }

    fn obtain_dir(&self, name: &str) -> (r: Result<&DirSingle<T>, DirError>) {
        self.directory.obtain_dir(name)
    }

    fn obtain_dir_mut(&mut self, name: &str) -> (r: Result<&mut DirSingle<T>, DirError>) {
        self.directory.obtain_dir_mut(name)
    }

    fn borrow_dir(&self, path: &str) -> (r: Result<&DirSingle<T>, DirError>) {
        self.directory.borrow_dir(path)
    }

    fn borrow_dir_mut(&mut self, path: &str) -> (r: Result<&mut DirSingle<T>, DirError>) {
        self.directory.borrow_dir_mut(path)
    }

    fn merge(&mut self, directory: DirSingle<T>) -> (r: Result<(), DirError>) {
        self.directory.merge(directory)
    }

    fn crawl(&self) -> (r: Vec<&DirSingle<T>>) {
        self.directory.crawl()
    }

    fn listing(&self, with_files: bool) -> (lines: Vec<Line>) {
        self.directory.listing(with_files)
    }

    fn tree(&self) -> (text: String) {
        self.directory.tree()
    }

    fn tree_dir(&self) -> (text: String) {
        self.directory.tree_dir()
    }

    fn dir_names(&self) -> (names: Vec<String>) {
        self.directory.dir_names()
    }

    fn get_name(&self) -> (name: &String) {
        self.directory.get_name()
    }

    fn get_depth(&self) -> (depth: usize) {
        self.directory.get_depth()
    }

    fn get_path(&self) -> (path: &String) {
        self.directory.get_path()
    }
}

impl<T> DirFile<T> for DirMapSingle<T> {
    fn add_file(&mut self, file: T) -> (r: Option<T>) {
        self.directory.add_file(file)
    }

    fn insert_file(&mut self, path: &str, file: T) -> (r: Result<Option<T>, DirError>) {
        self.directory.insert_file(path, file)
    }

    fn take_file(&mut self) -> (r: Option<T>) {
        self.directory.take_file()
    }

    fn remove_file(&mut self, path: &str) -> (r: Result<Option<T>, DirError>) {
        self.directory.remove_file(path)
    }

    fn obtain_file(&self) -> (r: Option<&T>) {
        self.directory.obtain_file()
    }

    fn obtain_file_mut(&mut self) -> (r: Option<&mut T>) {
        self.directory.obtain_file_mut()
    }

    fn borrow_file(&self, path: &str) -> (r: Result<Option<&T>, DirError>) {
        self.directory.borrow_file(path)
    }

    fn borrow_file_mut(&mut self, path: &str) -> (r: Result<Option<&mut T>, DirError>) {
        self.directory.borrow_file_mut(path)
    }
}

impl<T: Clone> Clone for DirMapSingle<T> {
    /// A tree whose root is a clone of the root of this one.
    fn clone(&self) -> (r: Self)
        ensures
            r.model().same_records(self.model()),
            r.model().order == self.model().order,
            self.wf() ==> r.wf() && copied(self.model(), r.model()),
    {
        DirMapSingle { directory: self.directory.clone() }
    }
}

impl<T> Default for DirMapSingle<T> {
    /// A tree without a name, with nothing in it.
    fn default() -> (tree: Self)
        ensures
            tree.wf(),
            tree.model() == NodeView::<Option<T>>::root(Seq::empty(), None),
    {
        DirMapSingle { directory: DirSingle::default() }
    }
}

impl<T: PartialEq> PartialEq for DirMapSingle<T> {
    /// Whether the roots are alike.
    fn eq(&self, other: &Self) -> (r: bool)
        ensures
            self.wf() && other.wf() && plain_equality::<T>() ==> r == self.model().alike(
                other.model(),
            ),
    {
        self.directory.eq(&other.directory)
    }
}

impl<T: PartialEq> PartialEqSpecImpl for DirMapSingle<T> {
    open spec fn obeys_eq_spec() -> bool {
        false
    }

    open spec fn eq_spec(&self, other: &Self) -> bool {
        self.model() == other.model()
    }
}

impl<T> From<DirMapSingle<T>> for DirSingle<T> {
    /// The root directory of the tree.
    fn from(tree: DirMapSingle<T>) -> (d: Self) {
        tree.directory
    }
}

impl<T> FromSpecImpl<DirMapSingle<T>> for DirSingle<T> {
    open spec fn obeys_from_spec() -> bool {
        true
    }

    open spec fn from_spec(tree: DirMapSingle<T>) -> Self {
        tree.directory
    }
}

} // verus!
