//! What every directory and every tree offers.

use vstd::prelude::*;
use crate::error::DirError;
use crate::error::Failure;
use crate::files::FilesView;
use crate::listing::Line;
use crate::listing::line_views;
use crate::listing::rendered;
use crate::model::NodeView;
use crate::model::Payload;

verus! {

/// A value that stands for a directory: it has a mathematical model, and a
/// representation that is either sound or not.
pub trait DirNode: Sized {
    /// What the directory holds besides its children, as a mathematical value.
    type Files: Payload;

    /// The directory as a mathematical value.
    spec fn model(&self) -> NodeView<Self::Files>;

    /// Whether the representation is sound. Every operation keeps it so.
    spec fn wf(&self) -> bool;

    /// The model of a soundly represented directory is valid.
    proof fn lemma_valid(&self)
        requires
            self.wf(),
        ensures
            self.model().valid(),
    ;
}

/// The models of borrowed directories, in order.
pub open spec fn models<D: DirNode>(dirs: Seq<&D>) -> Seq<NodeView<D::Files>> {
    dirs.map_values(|d: &D| d.model())
}

/// The operations on the hierarchy of directories. `D` is the type of a directory.
pub trait DirHierarchy<D: DirNode<Files = Self::Files>>: DirNode {
    /// Adds `directory` directly to this directory and returns the name it got. An empty
    /// `name` asks for a generated one. The directory and all that lies below it record
    /// anew where they stand: the name, the path below the parent, and the depth of the
    /// parent plus one.
    fn add_dir(&mut self, name: &str, directory: D) -> (r: Result<String, DirError>)
        requires
            old(self).wf(),
            directory.wf(),
        ensures
            final(self).wf(),
            r matches Ok(given) ==> old(self).model().add(name@, directory.model())
                == Ok::<_, Failure>((given@, final(self).model())),
            r matches Err(e) ==> old(self).model().add(name@, directory.model()) matches Err(f)
                && f == e@ && final(self).model() == old(self).model(),
    ;

    /// Borrows a direct child, or the directory itself for the alias.
    fn obtain_dir(&self, name: &str) -> (r: Result<&D, DirError>)
        requires
            self.wf(),
        ensures
            r matches Ok(d) ==> self.model().obtain(name@) == Ok::<_, Failure>(d.model())
                && d.wf(),
            r matches Err(e) ==> self.model().obtain(name@) matches Err(f) && f == e@,
    ;

    /// Borrows a direct child, or the directory itself for the alias, for changing it.
    /// This directory stays sound if what is borrowed stays sound and keeps its records.
    fn obtain_dir_mut(&mut self, name: &str) -> (r: Result<&mut D, DirError>)
        requires
            old(self).wf(),
        ensures
            r matches Ok(d) ==> old(self).model().obtain(name@) == Ok::<_, Failure>(d.model())
                && d.wf() && final(self).model() == old(self).model().put(
                name@,
                final(d).model(),
            ) && (final(d).wf() && final(d).model().same_records(d.model()) ==> final(self).wf()),
            r matches Err(e) ==> old(self).model().obtain(name@) matches Err(f) && f == e@
                && final(self).model() == old(self).model() && final(self).wf(),
    ;

    /// Borrows the directory that `path` leads to.
    fn borrow_dir(&self, path: &str) -> (r: Result<&D, DirError>)
        requires
            self.wf(),
        ensures
            r matches Ok(d) ==> self.model().locate(path@) == Ok::<_, Failure>(d.model())
                && d.wf(),
            r matches Err(e) ==> self.model().locate(path@) matches Err(f) && f == e@,
    ;

    /// Borrows the directory that `path` leads to, for changing it. This directory stays
    /// sound if what is borrowed stays sound and keeps its records.
    fn borrow_dir_mut(&mut self, path: &str) -> (r: Result<&mut D, DirError>)
        requires
            old(self).wf(),
        ensures
            r matches Ok(d) ==> old(self).model().locate(path@) == Ok::<_, Failure>(d.model())
                && d.wf() && final(self).model() == old(self).model().replace(
                path@,
                final(d).model(),
            ) && (final(d).wf() && final(d).model().same_records(d.model()) ==> final(self).wf()),
            r matches Err(e) ==> old(self).model().locate(path@) matches Err(f) && f == e@
                && final(self).model() == old(self).model() && final(self).wf(),
    ;

    /// Inserts `directory` at `path` and returns the name it got. What stands before the
    /// last separator of `path` must lead to an existing directory.
    fn insert_dir(&mut self, path: &str, directory: D) -> (r: Result<String, DirError>)
        requires
            old(self).wf(),
            directory.wf(),
        ensures
            final(self).wf(),
            r matches Ok(given) ==> old(self).model().insert(path@, directory.model())
                == Ok::<_, Failure>((given@, final(self).model())),
            r matches Err(e) ==> old(self).model().insert(path@, directory.model()) matches Err(f)
                && f == e@ && final(self).model() == old(self).model(),
    ;

    /// Creates an empty directory at `path` and returns the name it got.
    fn create_dir(&mut self, path: &str) -> (r: Result<String, DirError>)
        requires
            old(self).wf(),
        ensures
            final(self).wf(),
            r matches Ok(given) ==> old(self).model().insert(
                path@,
                NodeView::unassigned(Self::Files::none()),
            ) == Ok::<_, Failure>((given@, final(self).model())),
            r matches Err(e) ==> old(self).model().insert(
                path@,
                NodeView::unassigned(Self::Files::none()),
            ) matches Err(f) && f == e@ && final(self).model() == old(self).model(),
    ;

    /// Takes the direct child `name` out and returns it.
    fn take_dir(&mut self, name: &str) -> (r: Result<D, DirError>)
        requires
            old(self).wf(),
        ensures
            final(self).wf(),
            r matches Ok(taken) ==> taken.wf() && old(self).model().take(name@)
                == Ok::<_, Failure>((taken.model(), final(self).model())),
            r matches Err(e) ==> old(self).model().take(name@) matches Err(f) && f == e@
                && final(self).model() == old(self).model(),
    ;

    /// Takes the directory at `path` out and returns it.
    fn remove_dir(&mut self, path: &str) -> (r: Result<D, DirError>)
        requires
            old(self).wf(),
        ensures
            final(self).wf(),
            r matches Ok(taken) ==> taken.wf() && old(self).model().remove(path@)
                == Ok::<_, Failure>((taken.model(), final(self).model())),
            r matches Err(e) ==> old(self).model().remove(path@) matches Err(f) && f == e@
                && final(self).model() == old(self).model(),
    ;

    /// Moves the children of `directory`, and its files where it may have any, into this
    /// directory, each under the name it had; what is moved records anew where it stands.
    /// Nothing is moved if a name of `directory` is taken here: a merge that fails leaves
    /// this directory as it was.
    fn merge(&mut self, directory: D) -> (r: Result<(), DirError>)
        requires
            old(self).wf(),
            directory.wf(),
        ensures
            final(self).wf(),
            final(self).model() == Self::Files::merged(old(self).model(), directory.model()).0,
            r matches Err(e) ==> Self::Files::merged(old(self).model(), directory.model()).1
                == Some(e@),
            r is Ok ==> Self::Files::merged(old(self).model(), directory.model()).1 is None,
    ;

    /// Every directory below this one.
    fn crawl(&self) -> (r: Vec<&D>)
        requires
            self.wf(),
        ensures
            models(r@) == self.model().descendants(),
            forall|i: int| 0 <= i < r.len() ==> (#[trigger] r[i]).wf(),
    ;

    /// The lines of the listing of this directory, with or without those of files.
    fn listing(&self, with_files: bool) -> (lines: Vec<Line>)
        requires
            self.wf(),
        ensures
            line_views(lines@) == self.model().listing(0, with_files),
    ;

    /// The listing of this directory as a text of several lines: its name, and a line
    /// for each directory and file that is shown, each painted as a terminal is to get
    /// it.
    fn tree(&self) -> (text: String)
        requires
            self.wf(),
        ensures
            rendered(text@, self.model().name, self.model().listing(0, true)),
    ;

    /// The listing of this directory as a text of several lines, without the files.
    fn tree_dir(&self) -> (text: String)
        requires
            self.wf(),
        ensures
            rendered(text@, self.model().name, self.model().listing(0, false)),
    ;

    /// The names of the children, in the order in which the directory walks them.
    fn dir_names(&self) -> (names: Vec<String>)
        ensures
            names@.map_values(|s: String| s@) == self.model().order,
    ;

    /// The name recorded when the directory was last attached.
    fn get_name(&self) -> (name: &String)
        ensures
            name@ == self.model().name,
    ;

    /// The depth recorded when the directory was last attached.
    fn get_depth(&self) -> (depth: usize)
        ensures
            depth == self.model().depth,
    ;

    /// The path recorded when the directory was last attached.
    fn get_path(&self) -> (path: &String)
        ensures
            path@ == self.model().path,
    ;
}

/// The operations on the one file that a directory may hold.
pub trait DirFile<T>: DirNode<Files = Option<T>> {
    /// Puts `file` into this directory and returns the file it held before.
    fn add_file(&mut self, file: T) -> (r: Option<T>)
        requires
            old(self).wf(),
        ensures
            final(self).wf(),
            r == old(self).model().file,
            final(self).model() == old(self).model().with_file(Some(file)),
    ;

    /// Puts `file` into the directory that holds the file addressed by `path`, and
    /// returns the file it held before.
    fn insert_file(&mut self, path: &str, file: T) -> (r: Result<Option<T>, DirError>)
        requires
            old(self).wf(),
        ensures
            final(self).wf(),
            r matches Ok(before) ==> old(self).model().insert_file(path@, file)
                == Ok::<_, Failure>((before, final(self).model())),
            r matches Err(e) ==> old(self).model().insert_file(path@, file) matches Err(f)
                && f == e@ && final(self).model() == old(self).model(),
    ;

    /// Takes the file out of this directory.
    fn take_file(&mut self) -> (r: Option<T>)
        requires
            old(self).wf(),
        ensures
            final(self).wf(),
            r == old(self).model().file,
            final(self).model() == old(self).model().with_file(None),
    ;

    /// Takes the file out of the directory that holds the file addressed by `path`.
    fn remove_file(&mut self, path: &str) -> (r: Result<Option<T>, DirError>)
        requires
            old(self).wf(),
        ensures
            final(self).wf(),
            r matches Ok(before) ==> old(self).model().remove_file(path@)
                == Ok::<_, Failure>((before, final(self).model())),
            r matches Err(e) ==> old(self).model().remove_file(path@) matches Err(f) && f == e@
                && final(self).model() == old(self).model(),
    ;

    /// Borrows the file of this directory.
    fn obtain_file(&self) -> (r: Option<&T>)
        ensures
            r matches Some(f) ==> self.model().file == Some(*f),
            r is None ==> self.model().file is None,
    ;

    /// Borrows the file of this directory, for changing it.
    fn obtain_file_mut(&mut self) -> (r: Option<&mut T>)
        requires
            old(self).wf(),
        ensures
            final(self).wf(),
            r matches Some(f) ==> old(self).model().file == Some(*f) && final(self).model()
                == old(self).model().with_file(Some(*final(f))),
            r is None ==> old(self).model().file is None
                && final(self).model() == old(self).model(),
    ;

    /// Borrows the file addressed by `path`.
    fn borrow_file(&self, path: &str) -> (r: Result<Option<&T>, DirError>)
        requires
            self.wf(),
        ensures
            r matches Ok(Some(f)) ==> self.model().borrow_file(path@) == Ok::<_, Failure>(
                Some(*f),
            ),
            r matches Ok(None) ==> self.model().borrow_file(path@) == Ok::<_, Failure>(
                None::<T>,
            ),
            r matches Err(e) ==> self.model().borrow_file(path@) matches Err(f) && f == e@,
    ;

    /// Borrows the file addressed by `path`, for changing it.
    fn borrow_file_mut(&mut self, path: &str) -> (r: Result<Option<&mut T>, DirError>)
        requires
            old(self).wf(),
        ensures
            final(self).wf(),
            r matches Ok(Some(f)) ==> old(self).model().borrow_file(path@) == Ok::<_, Failure>(
                Some(*f),
            ) && old(self).model().insert_file(path@, *final(f)) == Ok::<_, Failure>(
                (Some(*f), final(self).model()),
            ),
            r matches Ok(None) ==> old(self).model().borrow_file(path@) == Ok::<_, Failure>(
                None::<T>,
            ) && final(self).model() == old(self).model(),
            r matches Err(e) ==> old(self).model().borrow_file(path@) matches Err(f) && f == e@
                && final(self).model() == old(self).model(),
    ;
}

/// The operations on the named files that a directory may hold.
pub trait DirFiles<T>: DirNode<Files = FilesView<T>> {
    /// Adds `file` to this directory under `name`, unless the name is taken.
    fn add_file(&mut self, name: &str, file: T) -> (r: Result<(), DirError>)
        requires
            old(self).wf(),
        ensures
            final(self).wf(),
            r is Ok ==> (old(self).model().file.add(name@, file) matches Ok(files)
                && final(self).model() == old(self).model().with_file(files)),
            r matches Err(e) ==> old(self).model().file.add(name@, file) matches Err(f) && f == e@
                && final(self).model() == old(self).model(),
    ;

    /// Adds `file` to the directory that holds the file addressed by `path`, under the
    /// last segment of `path`.
    fn insert_file(&mut self, path: &str, file: T) -> (r: Result<(), DirError>)
        requires
            old(self).wf(),
        ensures
            final(self).wf(),
            r is Ok ==> old(self).model().insert_file(path@, file) == Ok::<_, Failure>(
                final(self).model(),
            ),
            r matches Err(e) ==> old(self).model().insert_file(path@, file) matches Err(f) && f
                == e@ && final(self).model() == old(self).model(),
    ;

    /// Takes the file named `name` out of this directory.
    fn take_file(&mut self, name: &str) -> (r: Result<T, DirError>)
        requires
            old(self).wf(),
        ensures
            final(self).wf(),
            r matches Ok(file) ==> old(self).model().file.take(name@) matches Ok(taken)
                && taken.0 == file && final(self).model() == old(self).model().with_file(taken.1),
            r matches Err(e) ==> old(self).model().file.take(name@) matches Err(f) && f == e@
                && final(self).model() == old(self).model(),
    ;

    /// Takes the file addressed by `path` out of the directory that holds it.
    fn remove_file(&mut self, path: &str) -> (r: Result<T, DirError>)
        requires
            old(self).wf(),
        ensures
            final(self).wf(),
            r matches Ok(file) ==> old(self).model().remove_file(path@)
                == Ok::<_, Failure>((file, final(self).model())),
            r matches Err(e) ==> old(self).model().remove_file(path@) matches Err(f) && f == e@
                && final(self).model() == old(self).model(),
    ;

    /// The names of the files of this directory, in the order in which it walks them.
    fn file_names(&self) -> (names: Vec<String>)
        ensures
            names@.map_values(|s: String| s@) == self.model().file.order,
    ;

    /// Borrows the file named `name`.
    fn obtain_file(&self, name: &str) -> (r: Result<&T, DirError>)
        requires
            self.wf(),
        ensures
            r matches Ok(file) ==> self.model().file.get(name@) == Ok::<_, Failure>(*file),
            r matches Err(e) ==> self.model().file.get(name@) matches Err(f) && f == e@,
    ;

    /// Borrows the file named `name`, for changing it.
    fn obtain_file_mut(&mut self, name: &str) -> (r: Result<&mut T, DirError>)
        requires
            old(self).wf(),
        ensures
            final(self).wf(),
            r matches Ok(file) ==> old(self).model().file.get(name@) == Ok::<_, Failure>(*file)
                && final(self).model() == old(self).model().with_file(
                old(self).model().file.with(name@, *final(file)),
            ),
            r matches Err(e) ==> old(self).model().file.get(name@) matches Err(f) && f == e@
                && final(self).model() == old(self).model(),
    ;

    /// Borrows the file addressed by `path`.
    fn borrow_file(&self, path: &str) -> (r: Result<&T, DirError>)
        requires
            self.wf(),
        ensures
            r matches Ok(file) ==> self.model().borrow_file(path@) == Ok::<_, Failure>(*file),
            r matches Err(e) ==> self.model().borrow_file(path@) matches Err(f) && f == e@,
    ;

    /// Borrows the file addressed by `path`, for changing it.
    fn borrow_file_mut(&mut self, path: &str) -> (r: Result<&mut T, DirError>)
        requires
            old(self).wf(),
        ensures
            final(self).wf(),
            r matches Ok(file) ==> old(self).model().borrow_file(path@) == Ok::<_, Failure>(*file)
                && final(self).model() == old(self).model().with_file_at(path@, *final(file)),
            r matches Err(e) ==> old(self).model().borrow_file(path@) matches Err(f) && f == e@
                && final(self).model() == old(self).model(),
    ;
}

} // verus!
