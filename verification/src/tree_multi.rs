//! The tree whose directories hold any number of named files each.

use vstd::prelude::*;
use vstd::std_specs::cmp::PartialEqSpecImpl;
use vstd::std_specs::convert::FromSpecImpl;
use crate::error::DirError;
use crate::files::FilesView;
use crate::listing::Line;
use crate::model::NodeView;
use crate::table::plain_equality;
use crate::multi::copied;
use crate::multi::DirMulti;
use crate::traits::DirFiles;
use crate::traits::DirHierarchy;
use crate::traits::DirNode;

verus! {

/// A named tree of directories that hold any number of named files each. Every operation is
/// that of its root directory.
#[derive(Debug)]
pub struct DirMapMulti<T> {
    /// The root directory.
    pub directory: DirMulti<T>,
}

impl<T> DirMapMulti<T> {
    /// A tree named `name`, with nothing in it.
    pub fn new(name: &str) -> (tree: Self)
        ensures
            tree.wf(),
            tree.model() == NodeView::<FilesView<T>>::root(name@, FilesView::empty()),
    {
        DirMapMulti { directory: DirMulti::root(name) }
    }

    /// The root directory, once the tree is given up.
    pub fn into_dir(self) -> (d: DirMulti<T>)
        ensures
            d == self.directory,
    {
        self.directory
    }
}

impl<T> View for DirMapMulti<T> {
    type V = NodeView<FilesView<T>>;

    open spec fn view(&self) -> NodeView<FilesView<T>> {
        self.model()
    }
}

impl<T> DirNode for DirMapMulti<T> {
    type Files = FilesView<T>;

    open spec fn model(&self) -> NodeView<FilesView<T>> {
        self.directory.model()
    }

    open spec fn wf(&self) -> bool {
        self.directory.wf()
    }

    proof fn lemma_valid(&self) {
        self.directory.lemma_valid();
    }
}

impl<T> DirHierarchy<DirMulti<T>> for DirMapMulti<T> {
    fn add_dir(&mut self, name: &str, directory: DirMulti<T>) -> (r: Result<String, DirError>) {
        self.directory.add_dir(name, directory)
    }

    fn insert_dir(&mut self, path: &str, directory: DirMulti<T>) -> (r: Result<String, DirError>) {
        self.directory.insert_dir(path, directory)
    }

    fn create_dir(&mut self, path: &str) -> (r: Result<String, DirError>) {
        self.directory.create_dir(path)
    }

    fn take_dir(&mut self, name: &str) -> (r: Result<DirMulti<T>, DirError>) {
        self.directory.take_dir(name)
    }

    fn remove_dir(&mut self, path: &str) -> (r: Result<DirMulti<T>, DirError>) {
        self.directory.remove_dir(path)
    }

    fn obtain_dir(&self, name: &str) -> (r: Result<&DirMulti<T>, DirError>) {
        self.directory.obtain_dir(name)
    }

    fn obtain_dir_mut(&mut self, name: &str) -> (r: Result<&mut DirMulti<T>, DirError>) {
        self.directory.obtain_dir_mut(name)
    }

    fn borrow_dir(&self, path: &str) -> (r: Result<&DirMulti<T>, DirError>) {
        self.directory.borrow_dir(path)
    }

    fn borrow_dir_mut(&mut self, path: &str) -> (r: Result<&mut DirMulti<T>, DirError>) {
        self.directory.borrow_dir_mut(path)
    }

    fn merge(&mut self, directory: DirMulti<T>) -> (r: Result<(), DirError>) {
        self.directory.merge(directory)
    }

    fn crawl(&self) -> (r: Vec<&DirMulti<T>>) {
        self.directory.crawl()
    }

    fn listing(&self, with_files: bool) -> (lines: Vec<Line>) {
        self.directory.listing(with_files)
    }

    fn tree(&self) -> (text: String) {
        self.directory.tree()
    }

    fn tree_dir(&self) -> (text: String) {
        self.directory.tree_dir()
    }

    fn dir_names(&self) -> (names: Vec<String>) {
        self.directory.dir_names()
    }

    fn get_name(&self) -> (name: &String) {
        self.directory.get_name()
    }

    fn get_depth(&self) -> (depth: usize) {
        self.directory.get_depth()
    }

    fn get_path(&self) -> (path: &String) {
        self.directory.get_path()
    }
}

impl<T> DirFiles<T> for DirMapMulti<T> {
    fn add_file(&mut self, name: &str, file: T) -> (r: Result<(), DirError>) {
        self.directory.add_file(name, file)
    }

    fn insert_file(&mut self, path: &str, file: T) -> (r: Result<(), DirError>) {
        self.directory.insert_file(path, file)
    }

    fn take_file(&mut self, name: &str) -> (r: Result<T, DirError>) {
        self.directory.take_file(name)
    }

    fn remove_file(&mut self, path: &str) -> (r: Result<T, DirError>) {
        self.directory.remove_file(path)
    }

    fn file_names(&self) -> (names: Vec<String>) {
        self.directory.file_names()
    }

    fn obtain_file(&self, name: &str) -> (r: Result<&T, DirError>) {
        self.directory.obtain_file(name)
    }

    fn obtain_file_mut(&mut self, name: &str) -> (r: Result<&mut T, DirError>) {
        self.directory.obtain_file_mut(name)
    }

    fn borrow_file(&self, path: &str) -> (r: Result<&T, DirError>) {
        self.directory.borrow_file(path)
    }

    fn borrow_file_mut(&mut self, path: &str) -> (r: Result<&mut T, DirError>) {
        self.directory.borrow_file_mut(path)
    }
}

impl<T: Clone> Clone for DirMapMulti<T> {
    /// A tree whose root is a clone of the root of this one.
    fn clone(&self) -> (r: Self)
        ensures
            r.model().same_records(self.model()),
            r.model().order == self.model().order,
            self.wf() ==> r.wf() && copied(self.model(), r.model()),
    {
        DirMapMulti { directory: self.directory.clone() }
    }
}

impl<T> Default for DirMapMulti<T> {
    /// A tree without a name, with nothing in it.
    fn default() -> (tree: Self)
        ensures
            tree.wf(),
            tree.model() == NodeView::<FilesView<T>>::root(Seq::empty(), FilesView::empty()),
    {
        DirMapMulti { directory: DirMulti::default() }
    }
}

impl<T: PartialEq> PartialEq for DirMapMulti<T> {
    /// Whether the roots are alike.
    fn eq(&self, other: &Self) -> (r: bool)
        ensures
            self.wf() && other.wf() && plain_equality::<T>() ==> r == self.model().alike(
                other.model(),
            ),
    {
        self.directory.eq(&other.directory)
    }
}

impl<T: PartialEq> PartialEqSpecImpl for DirMapMulti<T> {
    open spec fn obeys_eq_spec() -> bool {
        false
    }

    open spec fn eq_spec(&self, other: &Self) -> bool {
        self.model() == other.model()
    }
}

impl<T> From<DirMapMulti<T>> for DirMulti<T> {
    /// The root directory of the tree.
    fn from(tree: DirMapMulti<T>) -> (d: Self) {
        tree.directory
    }
}

impl<T> FromSpecImpl<DirMapMulti<T>> for DirMulti<T> {
    open spec fn obeys_from_spec() -> bool {
        true
    }

    open spec fn from_spec(tree: DirMapMulti<T>) -> Self {
        tree.directory
    }
}

} // verus!
