//! The mathematical model of a directory and of what each operation does to it.

use vstd::prelude::*;
use crate::error::Failure;
use crate::listing::directory_line;
use crate::listing::LineView;
use crate::names::anonymous_name;
use crate::names::lemma_anonymous_name;
use crate::names::NAME_ATTEMPTS;
use crate::path::is_hidden;
use crate::path::joined;
use crate::path::lemma_split_first_shorter;
use crate::path::self_alias;
use crate::path::separator;
use crate::path::split_first;
use crate::path::split_last;
use crate::table::swap_removed;

verus! {

/// A directory as a mathematical value. `F` is what a directory holds besides its
/// children: its files.
#[verifier::ext_equal]
pub struct NodeView<F> {
    /// The name under which the directory stands.
    pub name: Seq<char>,
    /// The path that leads to the directory from the root of its tree.
    pub path: Seq<char>,
    /// The number of directories above it.
    pub depth: nat,
    /// The files of the directory.
    pub file: F,
    /// The children, each under its name.
    pub children: Map<Seq<char>, NodeView<F>>,
    /// The names of the children, in the order in which the directory walks them.
    pub order: Seq<Seq<char>>,
}

/// What a directory holds besides its children: how it shows in a listing, and what
/// becomes of it when directories are merged.
pub trait Payload: Sized {
    /// The files of a directory that holds none.
    spec fn none() -> Self;

    /// Whether these files are consistently recorded.
    spec fn valid(self) -> bool;

    /// The lines that stand for these files in a listing at `level`.
    spec fn lines(self, level: nat) -> Seq<LineView>;

    /// Whether the two hold the same files, in whatever order.
    spec fn alike(self, other: Self) -> bool;

    /// Merging `donor` into `recipient`: the recipient afterwards, and the failure that
    /// stopped the merge, if one did.
    spec fn merged(recipient: NodeView<Self>, donor: NodeView<Self>) -> (
        NodeView<Self>,
        Option<Failure>,
    );

    /// The lines of files stand for files.
    proof fn lemma_lines_are_files(self, level: nat)
        ensures
            forall|j: int|
                0 <= j < self.lines(level).len() ==> (#[trigger] self.lines(level)[j]).kind is File,
    ;
}

/// The text of the failure reported when a child is to be named like the alias of the
/// directory itself.
pub open spec fn alias_message() -> Seq<char> {
    "The special symbol '.' is used to refer to 'self' and is not available for use"@
}

/// The text of the failure reported when no free generated name was found.
pub open spec fn exhausted_message() -> Seq<char> {
    "Failed to generate name, max threshold reached!"@
}

/// The text of the failure reported when a child is to be named like the alias of the
/// directory itself.
pub fn alias_text() -> (s: String)
    ensures
        s@ == alias_message(),
{
    "The special symbol '.' is used to refer to 'self' and is not available for use".to_owned()
}

/// The text of the failure reported when no free generated name was found.
pub fn exhausted_text() -> (s: String)
    ensures
        s@ == exhausted_message(),
{
    "Failed to generate name, max threshold reached!".to_owned()
}

impl<F> NodeView<F> {
    /// A directory that was never attached: it has no children and holds `file`.
    pub open spec fn unassigned(file: F) -> NodeView<F> {
        NodeView {
            name: "UNASSIGNED DIRECTORY"@,
            path: "EMPTY PATH"@,
            depth: 0,
            file,
            children: Map::empty(),
            order: Seq::empty(),
        }
    }

    /// The root of a tree named `name`: its path is empty, it has no children and holds
    /// `file`.
    pub open spec fn root(name: Seq<char>, file: F) -> NodeView<F> {
        NodeView {
            name,
            path: Seq::empty(),
            depth: 0,
            file,
            children: Map::empty(),
            order: Seq::empty(),
        }
    }

    /// The path of a child named `name`.
    pub open spec fn child_path(self, name: Seq<char>) -> Seq<char> {
        joined(self.path, name)
    }

    /// The directory as it is recorded once it stands under `name` at `path` and at
    /// `depth`: it records these, and every directory below it records the name it
    /// stands under, the path below its parent, and the depth of its parent plus one.
    pub open spec fn restamped(self, name: Seq<char>, path: Seq<char>, depth: nat) -> NodeView<F>
        decreases self,
    {
        NodeView {
            name,
            path,
            depth,
            children: Map::new(
                |k: Seq<char>| self.children.contains_key(k),
                |k: Seq<char>|
                    if self.children.dom().finite() && self.children.contains_key(k) {
                        self.children[k].restamped(k, joined(path, k), depth + 1)
                    } else {
                        self.children[k]
                    },
            ),
            ..self
        }
    }

    /// `child` as it is recorded once attached to this directory under `name`: it and
    /// every directory below it record anew where they stand.
    pub open spec fn stamp(self, name: Seq<char>, child: NodeView<F>) -> NodeView<F> {
        child.restamped(name, self.child_path(name), self.depth + 1)
    }

    /// Whether `child` records what this directory records on a child named `name`: the
    /// name, the path below this directory, and the depth of this directory plus one.
    pub open spec fn stamped(self, name: Seq<char>, child: NodeView<F>) -> bool {
        child.name == name && child.path == self.child_path(name) && child.depth == self.depth + 1
    }

    /// Whether the two directories record the same name, path and depth.
    pub open spec fn same_records(self, other: NodeView<F>) -> bool {
        self.name == other.name && self.path == other.path && self.depth == other.depth
    }

    /// The directory with `child` in place of the child named `name`.
    pub open spec fn with_child(self, name: Seq<char>, child: NodeView<F>) -> NodeView<F> {
        NodeView { children: self.children.insert(name, child), ..self }
    }

    /// The directory with `child` attached as a new, last child named `name`.
    pub open spec fn attach(self, name: Seq<char>, child: NodeView<F>) -> NodeView<F> {
        NodeView {
            children: self.children.insert(name, self.stamp(name, child)),
            order: self.order.push(name),
            ..self
        }
    }

    /// The directory without its child `name`: the last child takes its place in the
    /// order.
    pub open spec fn detach(self, name: Seq<char>) -> NodeView<F> {
        NodeView {
            children: self.children.remove(name),
            order: swap_removed(self.order, self.order.index_of(name)),
            ..self
        }
    }

    /// The first generated name that no child bears, among those that carry the numbers
    /// `from`, `from + 1`, and so on, `tries` of them.
    pub open spec fn first_free(self, from: nat, tries: nat) -> Option<Seq<char>>
        decreases tries,
    {
        if tries == 0 {
            None
        } else if !self.children.contains_key(anonymous_name(from)) {
            Some(anonymous_name(from))
        } else {
            self.first_free(from + 1, (tries - 1) as nat)
        }
    }

    /// The name that a child inserted without one gets: the first free generated name,
    /// counting up from the number of children.
    pub open spec fn fresh_name(self) -> Option<Seq<char>> {
        self.first_free(self.order.len(), NAME_ATTEMPTS as nat)
    }

    /// A name found by `first_free` is a generated name that no child bears.
    pub proof fn lemma_first_free(self, from: nat, tries: nat)
        ensures
            self.first_free(from, tries) matches Some(name) ==> !self.children.contains_key(name)
                && exists|n: nat| from <= n < from + tries && name == anonymous_name(n),
            self.first_free(from, tries) is None ==> forall|n: nat|
                from <= n < from + tries ==> self.children.contains_key(
                    #[trigger] anonymous_name(n),
                ),
        decreases tries,
    {
        if tries > 0 {
            if self.children.contains_key(anonymous_name(from)) {
                self.lemma_first_free(from + 1, (tries - 1) as nat);
            }
        }
    }

    /// The name that a child without one gets is free, hidden, not the alias, and a path
    /// of one segment.
    pub proof fn lemma_fresh_name(self)
        ensures
            self.fresh_name() matches Some(name) ==> {
                &&& !self.children.contains_key(name)
                &&& name.len() > 0
                &&& name != self_alias()
                &&& is_hidden(name)
                &&& !name.contains(separator())
            },
    {
        self.lemma_first_free(self.order.len(), NAME_ATTEMPTS as nat);
        if let Some(name) = self.fresh_name() {
            let n = choose|n: nat| name == anonymous_name(n);
            lemma_anonymous_name(n);
        }
    }

    /// Adding `child` directly under `name`: the name it got and the directory
    /// afterwards, or the failure.
    pub open spec fn add(self, name: Seq<char>, child: NodeView<F>) -> Result<
        (Seq<char>, NodeView<F>),
        Failure,
    > {
        if name.len() > 0 {
            if name == self_alias() {
                Err(Failure::InvalidPath(alias_message()))
            } else if self.children.contains_key(name) {
                Err(Failure::NameInUse(name))
            } else {
                Ok((name, self.attach(name, child)))
            }
        } else {
            match self.fresh_name() {
                Some(generated) => Ok((generated, self.attach(generated, child))),
                None => Err(Failure::InvalidPath(exhausted_message())),
            }
        }
    }

    /// Looking up one segment: the directory itself for the alias, else the child of
    /// that name.
    pub open spec fn obtain(self, name: Seq<char>) -> Result<NodeView<F>, Failure> {
        if name.len() == 0 {
            Err(Failure::InvalidPath(name))
        } else if name == self_alias() {
            Ok(self)
        } else if self.children.contains_key(name) {
            Ok(self.children[name])
        } else {
            Err(Failure::NoDir(name))
        }
    }

    /// The directory with `child` in place of what `obtain(name)` finds.
    pub open spec fn put(self, name: Seq<char>, child: NodeView<F>) -> NodeView<F> {
        if name == self_alias() {
            child
        } else {
            self.with_child(name, child)
        }
    }

    /// Walking a path from its first segment on: the directory it leads to, or the
    /// failure of the first segment that cannot be looked up.
    pub open spec fn locate(self, path: Seq<char>) -> Result<NodeView<F>, Failure>
        decreases path.len(),
    {
        match split_first(path) {
            None => self.obtain(path),
            Some((branch, rest)) => match self.obtain(branch) {
                Ok(child) => {
                    proof {
                        lemma_split_first_shorter(path);
                    }
                    child.locate(rest)
                },
                Err(e) => Err(e),
            },
        }
    }

    /// The directory with `new` in place of the directory that `locate(path)` finds.
    /// Where `locate(path)` fails, the directory itself.
    pub open spec fn replace(self, path: Seq<char>, new: NodeView<F>) -> NodeView<F>
        decreases path.len(),
    {
        match split_first(path) {
            None => match self.obtain(path) {
                Ok(_) => self.put(path, new),
                Err(_) => self,
            },
            Some((branch, rest)) => match self.obtain(branch) {
                Ok(child) => {
                    proof {
                        lemma_split_first_shorter(path);
                    }
                    self.put(branch, child.replace(rest, new))
                },
                Err(_) => self,
            },
        }
    }

    /// Inserting `child` at a path: the path is cut at its last separator, what stands
    /// before it is walked, and the child is added there under what stands after it.
    pub open spec fn insert(self, path: Seq<char>, child: NodeView<F>) -> Result<
        (Seq<char>, NodeView<F>),
        Failure,
    > {
        match split_last(path) {
            None => self.add(path, child),
            Some((dir, name)) => match self.locate(dir) {
                Ok(parent) => match parent.add(name, child) {
                    Ok((given, grown)) => Ok((given, self.replace(dir, grown))),
                    Err(e) => Err(e),
                },
                Err(e) => Err(e),
            },
        }
    }

    /// Taking the child `name` out: the child and the directory afterwards.
    pub open spec fn take(self, name: Seq<char>) -> Result<(NodeView<F>, NodeView<F>), Failure> {
        if self.children.contains_key(name) {
            Ok((self.children[name], self.detach(name)))
        } else {
            Err(Failure::NoDir(name))
        }
    }

    /// Removing the directory at a path: every segment but the last is looked up in
    /// turn, and the last names the child that is taken out.
    pub open spec fn remove(self, path: Seq<char>) -> Result<(NodeView<F>, NodeView<F>), Failure>
        decreases path.len(),
    {
        match split_first(path) {
            None => self.take(path),
            Some((branch, rest)) => match self.obtain(branch) {
                Ok(child) => {
                    proof {
                        lemma_split_first_shorter(path);
                    }
                    match child.remove(rest) {
                        Ok((taken, shrunk)) => Ok((taken, self.put(branch, shrunk))),
                        Err(e) => Err(e),
                    }
                },
                Err(e) => Err(e),
            },
        }
    }

    /// Every directory below this one: each child, in order, followed by what lies below
    /// it.
    pub open spec fn descendants(self) -> Seq<NodeView<F>>
        decreases self, self.order.len() + 1,
    {
        self.descendants_from(0)
    }

    /// The part of `descendants` that the children from position `i` on contribute.
    pub open spec fn descendants_from(self, i: nat) -> Seq<NodeView<F>>
        decreases self, self.order.len() - i,
    {
        if i < self.order.len() && self.children.dom().finite() && self.children.contains_key(
            self.order[i as int],
        ) {
            let child = self.children[self.order[i as int]];
            seq![child] + child.descendants() + self.descendants_from(i + 1)
        } else {
            Seq::empty()
        }
    }

    /// The directory that holds the file addressed by `path`: the directory itself where
    /// `path` has no separator, else the directory that the part before the last
    /// separator leads to. What stands after the last separator names the file.
    pub open spec fn holder(self, path: Seq<char>) -> Result<NodeView<F>, Failure> {
        match split_last(path) {
            None => Ok(self),
            Some((dir, _)) => self.locate(dir),
        }
    }

    /// The directory with `new` in place of `holder(path)`.
    pub open spec fn with_holder(self, path: Seq<char>, new: NodeView<F>) -> NodeView<F> {
        match split_last(path) {
            None => new,
            Some((dir, _)) => self.replace(dir, new),
        }
    }

    /// The directory with other files.
    pub open spec fn with_file(self, file: F) -> NodeView<F> {
        NodeView { file, ..self }
    }

    /// The first of `names`, from position `from` on, that a child bears.
    pub open spec fn first_collision(self, names: Seq<Seq<char>>, from: nat) -> Option<Seq<char>>
        decreases names.len() - from,
    {
        if from >= names.len() {
            None
        } else if self.children.contains_key(names[from as int]) {
            Some(names[from as int])
        } else {
            self.first_collision(names, from + 1)
        }
    }

    /// Moving the first `k` children of `donor` into this directory, the last of them
    /// first, each attached under the name it had in the donor.
    pub open spec fn absorb(self, donor: NodeView<F>, k: nat) -> NodeView<F>
        decreases k,
    {
        if k == 0 || k > donor.order.len() {
            self
        } else {
            let name = donor.order[k - 1];
            self.attach(name, donor.children[name]).absorb(donor, (k - 1) as nat)
        }
    }

    /// The first collision is a name that a child bears; there is none only where no name
    /// is taken.
    pub proof fn lemma_first_collision(self, names: Seq<Seq<char>>, from: nat)
        ensures
            self.first_collision(names, from) matches Some(name) ==> self.children.contains_key(
                name,
            ) && names.contains(name),
            self.first_collision(names, from) is None ==> forall|i: int|
                from <= i < names.len() ==> !self.children.contains_key(#[trigger] names[i]),
        decreases names.len() - from,
    {
        if from < names.len() && !self.children.contains_key(names[from as int]) {
            self.lemma_first_collision(names, from + 1);
        }
    }

    /// A directory put in place of one that records the same name, path and depth leaves
    /// the records of the directory above as they were.
    pub proof fn lemma_replace_records(self, path: Seq<char>, new: NodeView<F>)
        requires
            self.locate(path) is Ok,
            new.same_records(self.locate(path)->Ok_0),
        ensures
            self.replace(path, new).same_records(self),
        decreases path.len(),
    {
        lemma_split_first_shorter(path);
        if let Some((branch, rest)) = split_first(path) {
            let child = self.obtain(branch)->Ok_0;
            child.lemma_replace_records(rest, new);
        }
    }

    /// Removing a directory below leaves the records of the directory above as they were.
    pub proof fn lemma_remove_records(self, path: Seq<char>)
        requires
            self.remove(path) is Ok,
        ensures
            self.remove(path)->Ok_0.1.same_records(self),
        decreases path.len(),
    {
        lemma_split_first_shorter(path);
        if let Some((branch, rest)) = split_first(path) {
            let child = self.obtain(branch)->Ok_0;
            child.lemma_remove_records(rest);
        }
    }

    /// Putting back what was obtained changes nothing.
    pub proof fn lemma_put_same(self, name: Seq<char>)
        requires
            self.obtain(name) is Ok,
        ensures
            self.put(name, self.obtain(name)->Ok_0) == self,
    {
        if name != self_alias() {
            assert(self.children.insert(name, self.children[name]) =~= self.children);
        }
    }

    /// Replacing a directory by itself changes nothing.
    pub proof fn lemma_replace_same(self, path: Seq<char>)
        requires
            self.locate(path) is Ok,
        ensures
            self.replace(path, self.locate(path)->Ok_0) == self,
        decreases path.len(),
    {
        match split_first(path) {
            None => {
                self.lemma_put_same(path);
            },
            Some((branch, rest)) => {
                lemma_split_first_shorter(path);
                let child = self.obtain(branch)->Ok_0;
                child.lemma_replace_same(rest);
                self.lemma_put_same(branch);
            },
        }
    }
}

impl<F: Payload> NodeView<F> {
    /// What the directory records on its own: the children are named by `order`, none
    /// is named by the empty name or by the alias, and the depth does not exceed the
    /// length of the path.
    pub open spec fn valid_here(self) -> bool {
        &&& self.order.no_duplicates()
        &&& self.order.to_set() == self.children.dom()
        &&& !self.children.contains_key(Seq::<char>::empty())
        &&& !self.children.contains_key(self_alias())
        &&& self.depth <= self.path.len()
        &&& self.file.valid()
    }

    /// `valid_here` holds of the directory and of every directory below it, and each of
    /// them records the name it stands under, the path below its parent, and the depth of
    /// its parent plus one.
    pub open spec fn valid(self) -> bool
        decreases self,
    {
        &&& self.valid_here()
        &&& forall|k: Seq<char>| #[trigger]
            self.children.contains_key(k) ==> {
                &&& self.children.dom().finite()
                &&& self.stamped(k, self.children[k])
                &&& self.children[k].valid()
            }
    }

    /// Whether the two directories are alike: they bear the same records, hold the same
    /// files, and have under the same names children that are alike, in whatever order.
    pub open spec fn alike(self, other: NodeView<F>) -> bool
        decreases self,
    {
        &&& self.same_records(other)
        &&& self.file.alike(other.file)
        &&& self.children.dom() == other.children.dom()
        &&& forall|k: Seq<char>| #[trigger]
            self.children.contains_key(k) ==> (self.children.dom().finite()
                ==> self.children[k].alike(other.children[k]))
    }

    /// The lines of the listing of the directory at `level`: its files, where files are
    /// shown, and then each child that is not hidden, in order, followed by its own
    /// listing one level deeper. What lies below a hidden child is not shown.
    pub open spec fn listing(self, level: nat, with_files: bool) -> Seq<LineView>
        decreases self, self.order.len() + 1,
    {
        (if with_files {
            self.file.lines(level)
        } else {
            Seq::empty()
        }) + self.listing_from(level, with_files, 0)
    }

    /// The part of `listing` that the children from position `i` on contribute.
    pub open spec fn listing_from(self, level: nat, with_files: bool, i: nat) -> Seq<LineView>
        decreases self, self.order.len() - i,
    {
        if i < self.order.len() && self.children.dom().finite() && self.children.contains_key(
            self.order[i as int],
        ) {
            let name = self.order[i as int];
            (if is_hidden(name) {
                Seq::empty()
            } else {
                seq![directory_line(level, name)] + self.children[name].listing(
                    level + 1,
                    with_files,
                )
            }) + self.listing_from(level, with_files, i + 1)
        } else {
            Seq::empty()
        }
    }
}

} // verus!
