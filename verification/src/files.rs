//! The files of a directory that holds any number of them, each under its name.

use vstd::prelude::*;
use vstd::std_specs::cmp::PartialEqSpecImpl;
use crate::error::DirError;
use crate::error::Failure;
use crate::index::NameIndex;
use crate::listing::file_line;
use crate::listing::LineView;
use crate::model::NodeView;
use crate::model::Payload;
use crate::path::is_hidden;
use crate::path::leaf;
use crate::table::lemma_index_of;
use crate::table::lemma_same_names;
use crate::table::lemma_same_number;
use crate::table::plain_equality;
use crate::table::lemma_table;
use crate::table::lemma_table_push;
use crate::table::lemma_table_swap_removed;
use crate::table::lemma_table_update;
use crate::table::swap_removed;
use crate::table::table;
use crate::table::tabular;

verus! {

broadcast use vstd::std_specs::vec::group_vec_axioms;

/// Named files as a mathematical value.
#[verifier::ext_equal]
pub struct FilesView<T> {
    /// The files, each under its name.
    pub entries: Map<Seq<char>, T>,
    /// The names of the files, in the order in which they are walked.
    pub order: Seq<Seq<char>>,
}

impl<T> FilesView<T> {
    /// No files.
    pub open spec fn empty() -> FilesView<T> {
        FilesView { entries: Map::empty(), order: Seq::empty() }
    }

    /// Adding `file` under `name`: the files afterwards, or the failure where the name
    /// is taken.
    pub open spec fn add(self, name: Seq<char>, file: T) -> Result<FilesView<T>, Failure> {
        if self.entries.contains_key(name) {
            Err(Failure::NameInUse(name))
        } else {
            Ok(FilesView { entries: self.entries.insert(name, file), order: self.order.push(name) })
        }
    }

    /// The file named `name`.
    pub open spec fn get(self, name: Seq<char>) -> Result<T, Failure> {
        if self.entries.contains_key(name) {
            Ok(self.entries[name])
        } else {
            Err(Failure::NoFile(name))
        }
    }

    /// The files with `file` in place of the file named `name`.
    pub open spec fn with(self, name: Seq<char>, file: T) -> FilesView<T> {
        FilesView { entries: self.entries.insert(name, file), ..self }
    }

    /// Taking the file `name` out: the file and the files afterwards. The last file takes
    /// its place in the order.
    pub open spec fn take(self, name: Seq<char>) -> Result<(T, FilesView<T>), Failure> {
        if self.entries.contains_key(name) {
            Ok(
                (
                    self.entries[name],
                    FilesView {
                        entries: self.entries.remove(name),
                        order: swap_removed(self.order, self.order.index_of(name)),
                    },
                ),
            )
        } else {
            Err(Failure::NoFile(name))
        }
    }

    /// The files with the first `k` of `files` added, the last of them first, each under
    /// the name it had.
    pub open spec fn absorb(self, files: FilesView<T>, k: nat) -> FilesView<T>
        decreases k,
    {
        if k == 0 || k > files.order.len() {
            self
        } else {
            let name = files.order[k - 1];
            FilesView {
                entries: self.entries.insert(name, files.entries[name]),
                order: self.order.push(name),
            }.absorb(files, (k - 1) as nat)
        }
    }

    /// The first collision is a name that a file bears; there is none only where no name
    /// is taken.
    pub proof fn lemma_first_collision(self, names: Seq<Seq<char>>, from: nat)
        ensures
            self.first_collision(names, from) matches Some(name) ==> self.entries.contains_key(
                name,
            ) && names.contains(name),
            self.first_collision(names, from) is None ==> forall|i: int|
                from <= i < names.len() ==> !self.entries.contains_key(#[trigger] names[i]),
        decreases names.len() - from,
    {
        if from < names.len() && !self.entries.contains_key(names[from as int]) {
            self.lemma_first_collision(names, from + 1);
        }
    }

    /// The first of `names`, from position `from` on, that a file bears.
    pub open spec fn first_collision(self, names: Seq<Seq<char>>, from: nat) -> Option<Seq<char>>
        decreases names.len() - from,
    {
        if from >= names.len() {
            None
        } else if self.entries.contains_key(names[from as int]) {
            Some(names[from as int])
        } else {
            self.first_collision(names, from + 1)
        }
    }

    /// The lines of the files from position `i` on that are not hidden, in order.
    pub open spec fn lines_from(self, level: nat, i: nat) -> Seq<LineView>
        decreases self.order.len() - i,
    {
        if i >= self.order.len() {
            Seq::empty()
        } else {
            (if is_hidden(self.order[i as int]) {
                Seq::empty()
            } else {
                seq![file_line(level, self.order[i as int])]
            }) + self.lines_from(level, i + 1)
        }
    }
}

impl<T> NodeView<FilesView<T>> {
    /// Inserting `file` at a path: the directory that holds the file addressed by `path`
    /// gets it under the last segment of `path`.
    pub open spec fn insert_file(self, path: Seq<char>, file: T) -> Result<
        NodeView<FilesView<T>>,
        Failure,
    > {
        match self.holder(path) {
            Ok(h) => match h.file.add(leaf(path), file) {
                Ok(files) => Ok(self.with_holder(path, h.with_file(files))),
                Err(e) => Err(e),
            },
            Err(e) => Err(e),
        }
    }

    /// The file addressed by `path`: the file that the directory holding it has under the
    /// last segment of `path`.
    pub open spec fn borrow_file(self, path: Seq<char>) -> Result<T, Failure> {
        match self.holder(path) {
            Ok(h) => h.file.get(leaf(path)),
            Err(e) => Err(e),
        }
    }

    /// The directory with `file` in place of the file addressed by `path`.
    pub open spec fn with_file_at(self, path: Seq<char>, file: T) -> NodeView<FilesView<T>> {
        match self.holder(path) {
            Ok(h) => self.with_holder(path, h.with_file(h.file.with(leaf(path), file))),
            Err(_) => self,
        }
    }

    /// Taking the file addressed by `path` out: the file and the directory afterwards.
    pub open spec fn remove_file(self, path: Seq<char>) -> Result<
        (T, NodeView<FilesView<T>>),
        Failure,
    > {
        match self.holder(path) {
            Ok(h) => match h.file.take(leaf(path)) {
                Ok((file, rest)) => Ok((file, self.with_holder(path, h.with_file(rest)))),
                Err(e) => Err(e),
            },
            Err(e) => Err(e),
        }
    }
}

impl<T> Payload for FilesView<T> {
    open spec fn none() -> FilesView<T> {
        FilesView::empty()
    }

    /// The names in `order` are those of the files, each once.
    open spec fn valid(self) -> bool {
        self.order.no_duplicates() && self.order.to_set() == self.entries.dom()
    }

    /// One line for each file that is not hidden, in order.
    open spec fn lines(self, level: nat) -> Seq<LineView> {
        self.lines_from(level, 0)
    }

    /// The same names bear the same files.
    open spec fn alike(self, other: FilesView<T>) -> bool {
        self.entries == other.entries
    }

    proof fn lemma_lines_are_files(self, level: nat) {
        self.lemma_lines_from(level, 0);
    }

    /// A donor with a file whose name is taken in the recipient is refused: the first
    /// such name in the donor's order is reported. So is one with a child whose name is
    /// taken. Else the files are moved, and then the children, each under the name it
    /// had.
    open spec fn merged(recipient: NodeView<FilesView<T>>, donor: NodeView<FilesView<T>>) -> (
        NodeView<FilesView<T>>,
        Option<Failure>,
    ) {
        match recipient.file.first_collision(donor.file.order, 0) {
            Some(name) => (recipient, Some(Failure::DuplicateName(name))),
            None => match recipient.first_collision(donor.order, 0) {
                Some(name) => (recipient, Some(Failure::DuplicateName(name))),
                None => (
                    recipient.with_file(
                        recipient.file.absorb(donor.file, donor.file.order.len()),
                    ).absorb(donor, donor.order.len()),
                    None,
                ),
            },
        }
    }
}

impl<T> FilesView<T> {
    /// The lines of files stand for files, and none bears a hidden name.
    pub proof fn lemma_lines_from(self, level: nat, i: nat)
        ensures
            forall|j: int|
                0 <= j < self.lines_from(level, i).len() ==> {
                    let line = #[trigger] self.lines_from(level, i)[j];
                    line.kind is File && !is_hidden(line.label)
                },
        decreases self.order.len() - i,
    {
        if i < self.order.len() {
            self.lemma_lines_from(level, i + 1);
        }
    }
}

/// Whether `other` holds, under the same names in the same order, a clone of each of
/// `files`.
pub open spec fn files_cloned<T: Clone>(files: FilesView<T>, other: FilesView<T>) -> bool {
    &&& other.order == files.order
    &&& other.entries.dom() == files.entries.dom()
    &&& forall|k: Seq<char>| #[trigger]
        files.entries.contains_key(k) ==> cloned::<T>(files.entries[k], other.entries[k])
}

/// Files in a row, each under its name.
#[derive(Debug)]
pub struct Files<T> {
    index: NameIndex,
    items: Vec<T>,
}

impl<T> View for Files<T> {
    type V = FilesView<T>;

    closed spec fn view(&self) -> FilesView<T> {
        FilesView { entries: table(self.index.order(), self.items@), order: self.index.order() }
    }
}

impl<T> Files<T> {
    /// Every name has its file.
    pub closed spec fn wf(&self) -> bool {
        self.index.wf() && self.index.order().len() == self.items.len()
    }

    /// The files of a well-formed row are consistently recorded.
    pub proof fn lemma_valid(&self)
        requires
            self.wf(),
        ensures
            self@.valid(),
    {
        self.lemma_tabular();
    }

    /// The names and the items of a well-formed row make a table.
    proof fn lemma_tabular(&self)
        requires
            self.wf(),
        ensures
            tabular(self.index.order(), self.items@),
            self@.entries.dom() == self.index.order().to_set(),
            forall|i: int|
                0 <= i < self.items.len() ==> self@.entries[#[trigger] self.index.order()[i]]
                    == self.items[i],
    {
        self.index.lemma_distinct();
        lemma_table(self.index.order(), self.items@);
    }

    /// No files.
    pub fn new() -> (files: Self)
        ensures
            files.wf(),
            files@ == FilesView::<T>::empty(),
    {
        let files = Files { index: NameIndex::new(), items: Vec::new() };
        assert(files@.entries =~= Map::empty());
        files
    }

    /// The number of files.
    pub fn len(&self) -> (n: usize)
        ensures
            n == self@.order.len(),
    {
        self.index.len()
    }

    /// The name of the file in slot `i`.
    pub fn name_at(&self, i: usize) -> (name: &String)
        requires
            i < self@.order.len(),
        ensures
            name@ == self@.order[i as int],
    {
        self.index.name_at(i)
    }

    /// The names of the files, in order.
    pub fn names(&self) -> (names: Vec<String>)
        ensures
            names@.map_values(|s: String| s@) == self@.order,
    {
        self.index.names()
    }

    /// Whether a file is named `name`.
    pub fn contains(&self, name: &str) -> (b: bool)
        requires
            self.wf(),
        ensures
            b == self@.entries.contains_key(name@),
    {
        self.index.find(name).is_some()
    }

    /// Adds `file` under `name`, unless the name is taken.
    pub fn add(&mut self, name: &str, file: T) -> (r: Result<(), DirError>)
        requires
            old(self).wf(),
        ensures
            final(self).wf(),
            r is Ok ==> old(self)@.add(name@, file) == Ok::<_, Failure>(final(self)@),
            r matches Err(e) ==> old(self)@.add(name@, file) matches Err(f) && f == e@
                && final(self)@ == old(self)@,
    {
        if self.index.find(name).is_some() {
            return Err(DirError::NameInUse(name.to_owned()));
        }
        proof {
            self.lemma_tabular();
            lemma_table_push(self.index.order(), self.items@, name@, file);
        }
        self.index.push(name.to_owned());
        self.items.push(file);
        Ok(())
    }

    /// Borrows the file named `name`.
    pub fn get(&self, name: &str) -> (r: Result<&T, DirError>)
        requires
            self.wf(),
        ensures
            r matches Ok(file) ==> self@.get(name@) == Ok::<_, Failure>(*file),
            r matches Err(e) ==> self@.get(name@) matches Err(f) && f == e@,
    {
        proof {
            self.lemma_tabular();
        }
        match self.index.find(name) {
            Some(i) => Ok(&self.items[i]),
            None => Err(DirError::NoFile(name.to_owned())),
        }
    }

    /// Borrows the file named `name`, for changing it.
    pub fn get_mut(&mut self, name: &str) -> (r: Result<&mut T, DirError>)
        requires
            old(self).wf(),
        ensures
            final(self).wf(),
            r matches Ok(file) ==> old(self)@.get(name@) == Ok::<_, Failure>(*file)
                && final(self)@ == old(self)@.with(name@, *final(file)),
            r matches Err(e) ==> old(self)@.get(name@) matches Err(f) && f == e@
                && final(self)@ == old(self)@,
    {
        proof {
            self.lemma_tabular();
        }
        match self.index.find(name) {
            Some(i) => {
                proof {
                    assert forall|file: T| #[trigger]
                        table(self.index.order(), self.items@.update(i as int, file)) == table(
                            self.index.order(),
                            self.items@,
                        ).insert(name@, file) by {
                        lemma_table_update(self.index.order(), self.items@, i as int, file);
                    }
                }
                Ok(&mut self.items[i])
            },
            None => Err(DirError::NoFile(name.to_owned())),
        }
    }

    /// Takes the file named `name` out.
    pub fn take(&mut self, name: &str) -> (r: Result<T, DirError>)
        requires
            old(self).wf(),
        ensures
            final(self).wf(),
            r matches Ok(file) ==> old(self)@.take(name@) == Ok::<_, Failure>(
                (file, final(self)@),
            ),
            r matches Err(e) ==> old(self)@.take(name@) matches Err(f) && f == e@
                && final(self)@ == old(self)@,
    {
        proof {
            self.lemma_tabular();
        }
        match self.index.find(name) {
            Some(i) => {
                proof {
                    lemma_index_of(self.index.order(), i as int);
                    lemma_table_swap_removed(self.index.order(), self.items@, i as int);
                }
                let _ = self.index.swap_remove(i);
                let file = self.items.swap_remove(i);
                Ok(file)
            },
            None => Err(DirError::NoFile(name.to_owned())),
        }
    }

    /// Moves the files of `other` into this row, the last of them first, each under the
    /// name it had. No name of `other` may be taken here.
    pub fn absorb(&mut self, other: Files<T>)
        requires
            old(self).wf(),
            other.wf(),
            forall|i: int|
                0 <= i < other@.order.len() ==> !old(self)@.entries.contains_key(
                    #[trigger] other@.order[i],
                ),
        ensures
            final(self).wf(),
            final(self)@ == old(self)@.absorb(other@, other@.order.len()),
    {
        let ghost donor = other@;
        let mut rest = other;
        proof {
            rest.lemma_tabular();
        }
        loop
            invariant
                self.wf(),
                rest.wf(),
                donor.order.no_duplicates(),
                rest@.order.len() <= donor.order.len(),
                rest@.order == donor.order.take(rest@.order.len() as int),
                forall|i: int|
                    0 <= i < rest@.order.len() ==> rest@.entries[#[trigger] donor.order[i]]
                        == donor.entries[donor.order[i]],
                forall|i: int|
                    0 <= i < rest@.order.len() ==> !self@.entries.contains_key(
                        #[trigger] donor.order[i],
                    ),
                self@.absorb(donor, rest@.order.len()) == old(self)@.absorb(
                    donor,
                    donor.order.len(),
                ),
            ensures
                self.wf(),
                self@ == old(self)@.absorb(donor, donor.order.len()),
            decreases rest@.order.len(),
        {
            let ghost before = self@;
            let ghost k = rest@.order.len();
            match rest.pop() {
                None => {
                    break ;
                },
                Some((name, file)) => {
                    assert(rest@.order =~= donor.order.take(k - 1));
                    assert(name@ == donor.order[k - 1]);
                    assert forall|i: int| 0 <= i < k - 1
                        implies rest@.entries[#[trigger] donor.order[i]]
                        == donor.entries[donor.order[i]] && donor.order[i] != name@ by {
                        assert(donor.order[i] != donor.order[k - 1]);
                    }
                    let r = self.add(name.as_str(), file);
                    assert(r is Ok);
                    assert(self@ =~= FilesView {
                        entries: before.entries.insert(name@, donor.entries[name@]),
                        order: before.order.push(name@),
                    });
                },
            }
        }
    }

    /// Takes the last file out, with its name.
    pub fn pop(&mut self) -> (r: Option<(String, T)>)
        requires
            old(self).wf(),
        ensures
            final(self).wf(),
            r is None ==> old(self)@.order.len() == 0 && final(self)@ == old(self)@,
            r matches Some((name, file)) ==> old(self)@.order.len() > 0
                && name@ == old(self)@.order.last() && file == old(self)@.entries[name@]
                && final(self)@.order == old(self)@.order.drop_last()
                && final(self)@.entries == old(self)@.entries.remove(name@),
    {
        let n = self.items.len();
        if n == 0 {
            return None;
        }
        proof {
            self.lemma_tabular();
            lemma_table_swap_removed(self.index.order(), self.items@, n - 1);
        }
        let name = self.index.swap_remove(n - 1);
        let file = self.items.swap_remove(n - 1);
        assert(self@.order =~= old(self)@.order.drop_last());
        Some((name, file))
    }
}

impl<T: Clone> Clone for Files<T> {
    /// Files under the same names, in the same order, each a clone of the file it stands
    /// for.
    fn clone(&self) -> (r: Self)
        ensures
            r@.order == self@.order,
            self.wf() ==> r.wf() && files_cloned(self@, r@),
    {
        let mut items: Vec<T> = Vec::new();
        let mut i: usize = 0;
        while i < self.items.len()
            invariant
                i <= self.items.len(),
                items.len() == i,
                forall|j: int| 0 <= j < i ==> cloned::<T>(self.items[j], #[trigger] items[j]),
            decreases self.items.len() - i,
        {
            items.push(self.items[i].clone());
            i += 1;
        }
        let r = Files { index: self.index.clone(), items };
        proof {
            if self.wf() {
                self.lemma_tabular();
                r.lemma_tabular();
                assert forall|k: Seq<char>| #[trigger] self@.entries.contains_key(k)
                    implies cloned::<
                    T,
                >(self@.entries[k], r@.entries[k]) by {
                    let j = self.index.order().index_of(k);
                    assert(self.index.order()[j] == k);
                }
            }
        }
        r
    }
}

impl<T> Default for Files<T> {
    /// No files.
    fn default() -> (files: Self)
        ensures
            files.wf(),
            files@ == FilesView::<T>::empty(),
    {
        Files::new()
    }
}

impl<T: PartialEq> PartialEq for Files<T> {
    /// Whether the same names bear equal files, in whatever order.
    fn eq(&self, other: &Self) -> (r: bool)
        ensures
            self.wf() && other.wf() && plain_equality::<T>() ==> r == (self@.entries
                == other@.entries),
    {
        let ghost stated = self.wf() && other.wf() && plain_equality::<T>();
        proof {
            if stated {
                self.lemma_tabular();
                other.lemma_tabular();
                if self@.entries == other@.entries {
                    lemma_same_number(self.index.order(), other.index.order());
                }
            }
        }
        let n = self.items.len();
        if other.items.len() != n || self.index.len() != n || other.index.len() != n {
            return false;
        }
        let mut i: usize = 0;
        while i < n
            invariant
                n == self.items.len(),
                n == other.items.len(),
                n == self.index.order().len(),
                i <= n,
                stated == (self.wf() && other.wf() && plain_equality::<T>()),
                stated ==> tabular(self.index.order(), self.items@) && tabular(
                    other.index.order(),
                    other.items@,
                ),
                stated ==> forall|j: int|
                    0 <= j < i ==> other.index.order().contains(#[trigger] self.index.order()[j])
                        && other@.entries[self.index.order()[j]] == self.items[j],
            decreases n - i,
        {
            proof {
                if stated {
                    self.lemma_tabular();
                    other.lemma_tabular();
                    assert(self@.entries.contains_key(self.index.order()[i as int]));
                }
            }
            match other.index.find(self.index.name_at(i).as_str()) {
                Some(j) => {
                    if j >= n || !(self.items[i] == other.items[j]) {
                        return false;
                    }
                },
                None => {
                    return false;
                },
            }
            i += 1;
        }
        proof {
            if stated {
                self.lemma_tabular();
                other.lemma_tabular();
                lemma_same_names(self.index.order(), other.index.order());
                assert(self@.entries =~= other@.entries) by {
                    assert forall|k: Seq<char>| self@.entries.contains_key(k)
                        implies #[trigger] self@.entries[k] == other@.entries[k] by {
                        let j = self.index.order().index_of(k);
                        assert(self.index.order()[j] == k);
                    }
                }
            }
        }
        true
    }
}

impl<T: PartialEq> PartialEqSpecImpl for Files<T> {
    open spec fn obeys_eq_spec() -> bool {
        false
    }

    open spec fn eq_spec(&self, other: &Self) -> bool {
        self@ == other@
    }
}

} // verus!
