//! The directory that holds at most one file.

use vstd::prelude::*;
use vstd::std_specs::cmp::PartialEqSpecImpl;
use crate::error::DirError;
use crate::error::Failure;
use crate::index::NameIndex;
use crate::listing::bars;
use crate::listing::deeper;
use crate::listing::directory_line;
use crate::listing::file_label;
use crate::listing::file_line;
use crate::listing::guide;
use crate::listing::Line;
use crate::listing::line_views;
use crate::listing::LineKind;
use crate::listing::LineView;
use crate::listing::render;
use crate::model::alias_text;
use crate::model::exhausted_text;
use crate::model::NodeView;
use crate::model::Payload;
use crate::names::anonymous;
use crate::names::NAME_ATTEMPTS;
use crate::path::is_self_alias;
use crate::path::join;
use crate::path::joined;
use crate::path::lemma_split_first_shorter;
use crate::path::rsplit_once;
use crate::path::self_alias;
use crate::path::split_once;
use crate::path::starts_hidden;
use crate::table::lemma_index_of;
use crate::table::lemma_same_names;
use crate::table::lemma_same_number;
use crate::table::lemma_table;
use crate::table::plain_equality;
use crate::table::lemma_table_push;
use crate::table::lemma_table_swap_removed;
use crate::table::lemma_table_update;
use crate::table::swap_removed;
use crate::table::table;
use crate::table::tabular;
use crate::traits::DirFile;
use crate::traits::DirHierarchy;
use crate::traits::DirNode;
use crate::traits::models;

verus! {

broadcast use vstd::std_specs::vec::group_vec_axioms;

/// A directory that holds at most one file, and any number of directories of its kind.
#[derive(Debug)]
pub struct DirSingle<T> {
    name: String,
    path: String,
    depth: usize,
    file: Option<T>,
    index: NameIndex,
    nodes: Vec<DirSingle<T>>,
}

/// The directory as a mathematical value: its own records, and under each name of its
/// index the model of the node in that name's slot.
pub closed spec fn model_of<T>(d: DirSingle<T>) -> NodeView<Option<T>>
    decreases d,
{
    NodeView {
        name: d.name@,
        path: d.path@,
        depth: d.depth as nat,
        file: d.file,
        children: table(
            d.index.order(),
            Seq::new(
                d.nodes.len() as nat,
                |i: int|
                    if 0 <= i < d.nodes.len() {
                        model_of(d.nodes[i])
                    } else {
                        arbitrary()
                    },
            ),
        ),
        order: d.index.order(),
    }
}

/// The models of the nodes of `d`, in the order of their slots.
pub closed spec fn node_models<T>(d: DirSingle<T>) -> Seq<NodeView<Option<T>>> {
    d.nodes@.map_values(|n: DirSingle<T>| model_of(n))
}

/// Whether the representation of `d` and of every directory below it is sound: the
/// names and the nodes agree, and every node records the name it stands under, the path
/// below its parent, and the depth of its parent plus one.
pub closed spec fn sound<T>(d: DirSingle<T>) -> bool
    decreases d,
{
    &&& d.index.wf()
    &&& d.index.order().len() == d.nodes.len()
    &&& !d.index.order().contains(Seq::<char>::empty())
    &&& !d.index.order().contains(self_alias())
    &&& d.depth <= d.path@.len()
    &&& forall|i: int|
        0 <= i < d.nodes.len() ==> {
            &&& sound(#[trigger] d.nodes[i])
            &&& d.nodes[i].name@ == d.index.order()[i]
            &&& d.nodes[i].path@ == joined(d.path@, d.index.order()[i])
            &&& d.nodes[i].depth == d.depth + 1
        }
}

/// The children of the model are the models of the nodes, each under the name of its
/// slot.
proof fn lemma_children<T>(d: DirSingle<T>)
    requires
        sound(d),
    ensures
        tabular(d.index.order(), node_models(d)),
        model_of(d).order == d.index.order(),
        model_of(d).children == table(d.index.order(), node_models(d)),
        model_of(d).children.dom() == d.index.order().to_set(),
        forall|i: int|
            0 <= i < d.nodes.len() ==> model_of(d).children[#[trigger] d.index.order()[i]]
                == model_of(d.nodes[i]),
{
    d.index.lemma_distinct();
    assert(node_models(d) =~= Seq::new(
        d.nodes.len() as nat,
        |i: int|
            if 0 <= i < d.nodes.len() {
                model_of(d.nodes[i])
            } else {
                arbitrary()
            },
    ));
    lemma_table(d.index.order(), node_models(d));
}

impl<T> Payload for Option<T> {
    open spec fn none() -> Option<T> {
        None
    }

    open spec fn valid(self) -> bool {
        true
    }

    open spec fn alike(self, other: Option<T>) -> bool {
        self == other
    }

    /// One line labelled `FILE` where the directory holds a file.
    open spec fn lines(self, level: nat) -> Seq<LineView> {
        if self is Some {
            seq![file_line(level, file_label())]
        } else {
            Seq::empty()
        }
    }

    /// A donor that holds a file is refused. So is one with a child whose name is taken
    /// in the recipient: the first such name in the donor's order is reported. Else the
    /// children are moved, each under the name it had.
    open spec fn merged(recipient: NodeView<Option<T>>, donor: NodeView<Option<T>>) -> (
        NodeView<Option<T>>,
        Option<Failure>,
    ) {
        if donor.file is Some {
            (recipient, Some(Failure::FileConflict))
        } else {
            match recipient.first_collision(donor.order, 0) {
                Some(name) => (recipient, Some(Failure::DuplicateName(name))),
                None => (recipient.absorb(donor, donor.order.len()), None),
            }
        }
    }

    proof fn lemma_lines_are_files(self, level: nat) {
    }
}

impl<T> NodeView<Option<T>> {
    /// Putting `file` at a path: the file that the directory holding the file addressed
    /// by `path` held before, and the directory afterwards.
    pub open spec fn insert_file(self, path: Seq<char>, file: T) -> Result<
        (Option<T>, NodeView<Option<T>>),
        Failure,
    > {
        match self.holder(path) {
            Ok(h) => Ok((h.file, self.with_holder(path, h.with_file(Some(file))))),
            Err(e) => Err(e),
        }
    }

    /// The file addressed by `path`, if the directory that would hold it holds one.
    pub open spec fn borrow_file(self, path: Seq<char>) -> Result<Option<T>, Failure> {
        match self.holder(path) {
            Ok(h) => Ok(h.file),
            Err(e) => Err(e),
        }
    }

    /// Taking the file addressed by `path` out: the file, if there was one, and the
    /// directory afterwards.
    pub open spec fn remove_file(self, path: Seq<char>) -> Result<
        (Option<T>, NodeView<Option<T>>),
        Failure,
    > {
        match self.holder(path) {
            Ok(h) => Ok((h.file, self.with_holder(path, h.with_file(None)))),
            Err(e) => Err(e),
        }
    }
}

impl<T> View for DirSingle<T> {
    type V = NodeView<Option<T>>;

    open spec fn view(&self) -> NodeView<Option<T>> {
        self.model()
    }
}

impl<T> DirNode for DirSingle<T> {
    type Files = Option<T>;

    open spec fn model(&self) -> NodeView<Option<T>> {
        model_of(*self)
    }

    open spec fn wf(&self) -> bool {
        sound(*self)
    }

    proof fn lemma_valid(&self)
        decreases self,
    {
        let v = model_of(*self);
        lemma_children(*self);
        assert(v.children.dom().finite()) by {
            vstd::seq_lib::seq_to_set_is_finite(self.index.order());
        }
        assert forall|k: Seq<char>| #[trigger] v.children.contains_key(k)
            implies v.children[k].valid() by {
            let i = self.index.order().index_of(k);
            assert(self.index.order()[i] == k);
            self.nodes[i].lemma_valid();
        }
    }
}

impl<T> DirSingle<T> {
    /// A directory that is not attached anywhere: it has no children and no file.
    pub fn new() -> (d: Self)
        ensures
            d.wf(),
            d.model() == NodeView::<Option<T>>::unassigned(None),
    {
        proof {
            reveal_strlit("EMPTY PATH");
        }
        let d = DirSingle {
            name: "UNASSIGNED DIRECTORY".to_owned(),
            path: "EMPTY PATH".to_owned(),
            depth: 0,
            file: None,
            index: NameIndex::new(),
            nodes: Vec::new(),
        };
        assert(d.model().children =~= Map::empty());
        assert(d.model() =~= NodeView::<Option<T>>::unassigned(None));
        d
    }

    /// The root of a tree named `name`: its path is empty, it has no children and no
    /// file.
    pub fn root(name: &str) -> (d: Self)
        ensures
            d.wf(),
            d.model() == NodeView::<Option<T>>::root(name@, None),
    {
        let d = DirSingle {
            name: name.to_owned(),
            path: String::new(),
            depth: 0,
            file: None,
            index: NameIndex::new(),
            nodes: Vec::new(),
        };
        assert(d.model().children =~= Map::empty());
        assert(d.model() =~= NodeView::<Option<T>>::root(name@, None));
        d
    }

    /// The first generated name that no child bears.
    fn fresh_name(&self) -> (r: Option<String>)
        requires
            self.wf(),
        ensures
            r matches Some(name) ==> self.model().fresh_name() == Some(name@),
            r is None ==> self.model().fresh_name() is None,
    {
        proof {
            lemma_children(*self);
        }
        let count = self.index.len() as u128;
        let mut tried: usize = 0;
        while tried < NAME_ATTEMPTS
            invariant
                self.wf(),
                count == self.model().order.len(),
                tried <= NAME_ATTEMPTS,
                self.model().fresh_name() == self.model().first_free(
                    (count + tried) as nat,
                    (NAME_ATTEMPTS - tried) as nat,
                ),
            decreases NAME_ATTEMPTS - tried,
        {
            let candidate = anonymous(count + tried as u128);
            proof {
                lemma_children(*self);
            }
            if self.index.find(candidate.as_str()).is_none() {
                return Some(candidate);
            }
            tried += 1;
        }
        None
    }

    /// Records on this directory that it stands under `name` at `path` and at `depth`,
    /// and on every directory below it where it then stands.
    fn restamp(&mut self, name: String, path: String, depth: usize)
        requires
            old(self).wf(),
            depth <= path@.len(),
        ensures
            final(self).wf(),
            final(self).model() == old(self).model().restamped(name@, path@, depth as nat),
        decreases *old(self),
    {
        proof {
            lemma_children(*self);
        }
        let ghost names = self.index.order();
        let ghost given = name@;
        let ghost place = path@;
        self.name = name;
        self.path = path;
        self.depth = depth;
        let mut i: usize = 0;
        while i < self.nodes.len()
            invariant
                sound(*old(self)),
                i <= self.nodes.len(),
                self.nodes.len() == old(self).nodes.len(),
                self.name@ == given,
                self.path@ == place,
                self.depth == depth,
                self.depth <= self.path@.len(),
                self.index == old(self).index,
                self.file == old(self).file,
                names == self.index.order(),
                forall|j: int|
                    0 <= j < i ==> {
                        &&& sound(#[trigger] self.nodes[j])
                        &&& self.nodes[j].name@ == names[j]
                        &&& self.nodes[j].path@ == joined(place, names[j])
                        &&& self.nodes[j].depth == depth + 1
                        &&& model_of(self.nodes[j]) == model_of(old(self).nodes[j]).restamped(
                            names[j],
                            joined(place, names[j]),
                            (depth + 1) as nat,
                        )
                    },
                forall|j: int|
                    i <= j < self.nodes.len() ==> #[trigger] self.nodes[j] == old(self).nodes[j],
            decreases self.nodes.len() - i,
        {
            let child_name = self.index.name_at(i).clone();
            let child_path = join(self.path.as_str(), child_name.as_str());
            proof {
                assert(names.contains(names[i as int]));
                assert(names[i as int].len() > 0) by {
                    if names[i as int].len() == 0 {
                        assert(names[i as int] =~= Seq::<char>::empty());
                    }
                }
            }
            let child_depth = self.depth + 1;
            let ghost before = self.nodes@;
            self.nodes[i].restamp(child_name, child_path, child_depth);
            proof {
                assert forall|j: int| 0 <= j < i implies self.nodes[j] == before[j] by {}
            }
            i += 1;
        }
        proof {
            Self::lemma_restamped(*old(self), *self);
        }
    }

    /// The model after every node was recorded anew below the place of the directory,
    /// and the directory itself got another name, path and depth.
    proof fn lemma_restamped(a: DirSingle<T>, b: DirSingle<T>)
        requires
            sound(a),
            b.index == a.index,
            b.file == a.file,
            b.depth <= b.path@.len(),
            b.nodes.len() == a.nodes.len(),
            forall|j: int|
                0 <= j < b.nodes.len() ==> {
                    &&& sound(#[trigger] b.nodes[j])
                    &&& b.nodes[j].name@ == a.index.order()[j]
                    &&& b.nodes[j].path@ == joined(b.path@, a.index.order()[j])
                    &&& b.nodes[j].depth == b.depth + 1
                    &&& model_of(b.nodes[j]) == model_of(a.nodes[j]).restamped(
                        a.index.order()[j],
                        joined(b.path@, a.index.order()[j]),
                        (b.depth + 1) as nat,
                    )
                },
        ensures
            sound(b),
            model_of(b) == model_of(a).restamped(b.name@, b.path@, b.depth as nat),
    {
        lemma_children(a);
        assert(sound(b));
        lemma_children(b);
        let names = a.index.order();
        let target = model_of(a).restamped(b.name@, b.path@, b.depth as nat);
        assert(model_of(b).children =~= target.children) by {
            assert forall|k: Seq<char>| names.contains(k) implies #[trigger] model_of(
                b,
            ).children[k] == target.children[k] by {
                let j = names.index_of(k);
                assert(names[j] == k);
            }
        }
        assert(model_of(b) =~= target);
    }

    /// Records on `directory`, and on all that lies below it, that it is the child
    /// `name` of this directory, and makes it the last child.
    fn attach(&mut self, name: String, directory: DirSingle<T>)
        requires
            old(self).wf(),
            directory.wf(),
            name@.len() > 0,
            name@ != self_alias(),
            !old(self).model().children.contains_key(name@),
        ensures
            final(self).wf(),
            final(self).model() == old(self).model().attach(name@, directory.model()),
    {
        proof {
            lemma_children(*self);
        }
        let path = join(self.path.as_str(), name.as_str());
        let mut child = directory;
        child.restamp(name.clone(), path, self.depth + 1);
        self.index.push(name);
        self.nodes.push(child);
        proof {
            Self::lemma_node_added(*old(self), *self, name@);
        }
    }

    /// The model after a node was appended under a new name and nothing else changed.
    proof fn lemma_node_added(a: DirSingle<T>, b: DirSingle<T>, name: Seq<char>)
        requires
            sound(a),
            b.name == a.name,
            b.path == a.path,
            b.depth == a.depth,
            b.file == a.file,
            b.index.wf(),
            b.index.order() == a.index.order().push(name),
            !a.index.order().contains(name),
            name.len() > 0,
            name != self_alias(),
            b.nodes@ == a.nodes@.push(b.nodes@.last()),
            b.nodes@.len() == a.nodes@.len() + 1,
            sound(b.nodes@.last()),
            b.nodes@.last().name@ == name,
            b.nodes@.last().path@ == joined(a.path@, name),
            b.nodes@.last().depth == a.depth + 1,
        ensures
            sound(b),
            model_of(b).children == model_of(a).children.insert(name, model_of(b.nodes@.last())),
            model_of(b).order == model_of(a).order.push(name),
    {
        lemma_children(a);
        lemma_table_push(a.index.order(), node_models(a), name, model_of(b.nodes@.last()));
        assert(node_models(b) =~= node_models(a).push(model_of(b.nodes@.last())));
        assert forall|i: int| 0 <= i < b.nodes.len() implies sound(#[trigger] b.nodes[i]) by {
            if i < a.nodes.len() {
                assert(b.nodes[i] == a.nodes[i]);
            }
        }
        if name.len() > 0 {
            assert(name != Seq::<char>::empty());
        }
        assert(sound(b));
        lemma_children(b);
    }

    /// The model after the node in slot `i` was taken out, the last node moved into its
    /// slot, and nothing else changed.
    proof fn lemma_node_taken(a: DirSingle<T>, b: DirSingle<T>, i: int)
        requires
            sound(a),
            0 <= i < a.nodes.len(),
            b.name == a.name,
            b.path == a.path,
            b.depth == a.depth,
            b.file == a.file,
            b.index.wf(),
            b.index.order() == swap_removed(a.index.order(), i),
            b.nodes@ == swap_removed(a.nodes@, i),
        ensures
            sound(b),
            model_of(b) == model_of(a).detach(a.index.order()[i]),
    {
        lemma_children(a);
        lemma_index_of(a.index.order(), i);
        lemma_table_swap_removed(a.index.order(), node_models(a), i);
        assert(node_models(b) =~= swap_removed(node_models(a), i));
        assert forall|j: int| 0 <= j < b.nodes.len() implies sound(#[trigger] b.nodes[j]) by {
            if j == i {
                assert(b.nodes[j] == a.nodes[a.nodes.len() - 1]);
            } else {
                assert(b.nodes[j] == a.nodes[j]);
            }
        }
        assert(sound(b));
        lemma_children(b);
        assert(model_of(b) =~= model_of(a).detach(a.index.order()[i]));
    }

    /// The lines of the listing of this directory at `level`, below the marks `indent`.
    fn lines(&self, indent: &str, Ghost(level): Ghost<nat>, with_files: bool) -> (out: Vec<Line>)
        requires
            self.wf(),
            indent@ == bars(level),
        ensures
            line_views(out@) == self.model().listing(level, with_files),
        decreases self,
    {
        proof {
            lemma_children(*self);
            self.lemma_valid();
            reveal_strlit("FILE");
        }
        let mut out: Vec<Line> = Vec::new();
        if with_files && self.file.is_some() {
            let label = "FILE".to_owned();
            assert(label@ =~= file_label());
            out.push(Line { guide: guide(indent, Ghost(level)), kind: LineKind::File, label });
        }
        let below = deeper(indent, Ghost(level));
        let ghost head = line_views(out@);
        assert(head =~= if with_files {
            self.model().file.lines(level)
        } else {
            Seq::empty()
        });
        let mut i: usize = 0;
        while i < self.nodes.len()
            invariant
                self.wf(),
                i <= self.nodes.len(),
                indent@ == bars(level),
                below@ == bars(level + 1),
                self.nodes.len() == self.model().order.len(),
                self.model().order == self.index.order(),
                self.model().children.dom().finite(),
                self.model().children.dom() == self.model().order.to_set(),
                forall|j: int|
                    0 <= j < self.nodes.len()
                        ==> self.model().children[#[trigger] self.model().order[j]]
                        == model_of(self.nodes[j]),
                line_views(out@) + self.model().listing_from(level, with_files, i as nat)
                    == head + self.model().listing_from(level, with_files, 0),
            decreases self.nodes.len() - i,
        {
            let name = self.index.name_at(i);
            let ghost before = out@;
            proof {
                assert(self.model().order.to_set().contains(self.model().order[i as int]));
            }
            if !starts_hidden(name.as_str()) {
                out.push(
                    Line {
                        guide: guide(indent, Ghost(level)),
                        kind: LineKind::Directory,
                        label: name.clone(),
                    },
                );
                let mut lower = self.nodes[i].lines(
                    below.as_str(),
                    Ghost(level + 1),
                    with_files,
                );
                let ghost inner = lower@;
                out.append(&mut lower);
                proof {
                    assert(out@ =~= before.push(out@[before.len() as int]) + inner);
                    assert(line_views(out@) =~= line_views(before) + seq![
                        directory_line(level, name@),
                    ] + line_views(inner));
                }
            }
            proof {
                assert(line_views(out@) + self.model().listing_from(
                    level,
                    with_files,
                    (i + 1) as nat,
                ) =~= line_views(before) + self.model().listing_from(
                    level,
                    with_files,
                    i as nat,
                ));
            }
            i += 1;
        }
        assert(line_views(out@) =~= line_views(out@)
            + self.model().listing_from(level, with_files, i as nat));
        out
    }

    /// The model after the file changed and nothing else did.
    proof fn lemma_file_changed(a: DirSingle<T>, b: DirSingle<T>)
        requires
            sound(a),
            b.name == a.name,
            b.path == a.path,
            b.depth == a.depth,
            b.index == a.index,
            b.nodes == a.nodes,
        ensures
            sound(b),
            model_of(b) == model_of(a).with_file(b.file),
    {
        assert(model_of(b) =~= model_of(a).with_file(b.file));
    }

    /// The first name of `donor`, from slot `from` on, that a child of this directory
    /// bears.
    fn collision(&self, donor: &DirSingle<T>) -> (r: Option<String>)
        requires
            self.wf(),
            donor.wf(),
        ensures
            r matches Some(name) ==> self.model().first_collision(donor.model().order, 0) == Some(
                name@,
            ),
            r is None ==> self.model().first_collision(donor.model().order, 0) is None,
    {
        proof {
            lemma_children(*self);
        }
        let n = donor.index.len();
        let mut i: usize = 0;
        while i < n
            invariant
                self.wf(),
                n == donor.model().order.len(),
                donor.model().order == donor.index.order(),
                i <= n,
                self.model().children.dom() == self.index.order().to_set(),
                self.model().first_collision(donor.model().order, 0)
                    == self.model().first_collision(donor.model().order, i as nat),
            decreases n - i,
        {
            let name = donor.index.name_at(i);
            if self.index.find(name.as_str()).is_some() {
                return Some(name.clone());
            }
            i += 1;
        }
        None
    }

    /// The model after the node in slot `i` changed and nothing else did.
    proof fn lemma_node_changed(a: DirSingle<T>, b: DirSingle<T>, i: int)
        requires
            sound(a),
            0 <= i < a.nodes.len(),
            b.name == a.name,
            b.path == a.path,
            b.depth == a.depth,
            b.file == a.file,
            b.index == a.index,
            b.nodes@ == a.nodes@.update(i, b.nodes@[i]),
        ensures
            model_of(b) == model_of(a).with_child(a.index.order()[i], model_of(b.nodes@[i])),
            sound(b.nodes@[i]) && model_of(b.nodes@[i]).same_records(model_of(a.nodes@[i]))
                ==> sound(b),
    {
        lemma_children(a);
        lemma_table_update(a.index.order(), node_models(a), i, model_of(b.nodes@[i]));
        assert(node_models(b) =~= node_models(a).update(i, model_of(b.nodes@[i])));
        assert(model_of(b).children == table(b.index.order(), node_models(b))) by {
            assert(node_models(b) =~= Seq::new(
                b.nodes.len() as nat,
                |j: int|
                    if 0 <= j < b.nodes.len() {
                        model_of(b.nodes[j])
                    } else {
                        arbitrary()
                    },
            ));
        }
        assert(model_of(b) =~= model_of(a).with_child(
            a.index.order()[i],
            model_of(b.nodes@[i]),
        ));
        if sound(b.nodes@[i]) && model_of(b.nodes@[i]).same_records(model_of(a.nodes@[i])) {
            assert forall|j: int| 0 <= j < b.nodes.len() implies sound(#[trigger] b.nodes[j])
                && b.nodes[j].name@ == a.nodes[j].name@ && b.nodes[j].path@ == a.nodes[j].path@
                && b.nodes[j].depth == a.nodes[j].depth by {
                if j != i {
                    assert(b.nodes[j] == a.nodes[j]);
                }
            }
        }
    }
}

impl<T> DirHierarchy<DirSingle<T>> for DirSingle<T> {
    fn add_dir(&mut self, name: &str, directory: DirSingle<T>) -> (r: Result<String, DirError>) {
        proof {
            lemma_children(*self);
        }
        let given = if !name.is_empty() {
            if is_self_alias(name) {
                return Err(DirError::InvalidPath(alias_text()));
            }
            if self.index.find(name).is_some() {
                return Err(DirError::NameInUse(name.to_owned()));
            }
            name.to_owned()
        } else {
            proof {
                self.model().lemma_fresh_name();
            }
            match self.fresh_name() {
                Some(generated) => generated,
                None => {
                    return Err(DirError::InvalidPath(exhausted_text()));
                },
            }
        };
        self.attach(given.clone(), directory);
        Ok(given)
    }

    fn obtain_dir(&self, name: &str) -> (r: Result<&DirSingle<T>, DirError>) {
        if !name.is_empty() {
            if is_self_alias(name) {
                return Ok(self);
            }
            proof {
                lemma_children(*self);
            }
            match self.index.find(name) {
                Some(i) => Ok(&self.nodes[i]),
                None => Err(DirError::NoDir(name.to_owned())),
            }
        } else {
            Err(DirError::InvalidPath(name.to_owned()))
        }
    }

    fn obtain_dir_mut(&mut self, name: &str) -> (r: Result<&mut DirSingle<T>, DirError>) {
        if !name.is_empty() {
            if is_self_alias(name) {
                return Ok(self);
            }
            proof {
                lemma_children(*self);
            }
            match self.index.find(name) {
                Some(i) => {
                    proof {
                        // Whatever the borrowed node becomes, the directory is then what
                        // it was, with that node in its place.
                        let a = *self;
                        let slot = i as int;
                        assert forall|b: DirSingle<T>|
                            b.name == a.name && b.path == a.path && b.depth == a.depth
                                && b.file == a.file && b.index == a.index
                                && #[trigger] b.nodes@ == a.nodes@.update(slot, b.nodes@[slot])
                            implies model_of(b) == model_of(a).with_child(
                            name@,
                            model_of(b.nodes@[slot]),
                        ) && (sound(b.nodes@[slot]) && model_of(b.nodes@[slot]).same_records(
                            model_of(a.nodes@[slot]),
                        ) ==> sound(b)) by {
                            Self::lemma_node_changed(a, b, slot);
                        }
                    }
                    Ok(&mut self.nodes[i])
                },
                None => Err(DirError::NoDir(name.to_owned())),
            }
        } else {
            Err(DirError::InvalidPath(name.to_owned()))
        }
    }

    fn borrow_dir(&self, path: &str) -> (r: Result<&DirSingle<T>, DirError>)
        decreases path@.len(),
    {
        proof {
            lemma_split_first_shorter(path@);
        }
        match split_once(path) {
            None => self.obtain_dir(path),
            Some((branch, rest)) => match self.obtain_dir(branch) {
                Ok(child) => child.borrow_dir(rest),
                Err(e) => Err(e),
            },
        }
    }

    fn borrow_dir_mut(&mut self, path: &str) -> (r: Result<&mut DirSingle<T>, DirError>)
        decreases path@.len(),
    {
        proof {
            lemma_split_first_shorter(path@);
            if self.model().locate(path@) is Ok {
                self.model().lemma_replace_same(path@);
            }
        }
        match split_once(path) {
            None => self.obtain_dir_mut(path),
            Some((branch, rest)) => {
                proof {
                    if self.model().obtain(branch@) is Ok {
                        self.model().lemma_put_same(branch@);
                        let child = self.model().obtain(branch@)->Ok_0;
                        if child.locate(rest@) is Ok {
                            child.lemma_replace_same(rest@);
                            // Whatever the borrowed directory becomes, the child above
                            // it keeps its records if that directory keeps its own.
                            assert forall|new: NodeView<Option<T>>|
                                new.same_records(child.locate(rest@)->Ok_0) implies (
                            #[trigger] child.replace(rest@, new)).same_records(child) by {
                                child.lemma_replace_records(rest@, new);
                            }
                        }
                    }
                }
                match self.obtain_dir_mut(branch) {
                    Ok(child) => child.borrow_dir_mut(rest),
                    Err(e) => Err(e),
                }
            },
        }
    }

    fn insert_dir(&mut self, path: &str, directory: DirSingle<T>) -> (r: Result<String, DirError>) {
        match rsplit_once(path) {
            None => self.add_dir(path, directory),
            Some((dir, name)) => {
                proof {
                    if self.model().locate(dir@) is Ok {
                        self.model().lemma_replace_same(dir@);
                    }
                }
                match self.borrow_dir_mut(dir) {
                    Ok(parent) => parent.add_dir(name, directory),
                    Err(e) => Err(e),
                }
            },
        }
    }

    fn create_dir(&mut self, path: &str) -> (r: Result<String, DirError>) {
        self.insert_dir(path, DirSingle::new())
    }

    fn take_dir(&mut self, name: &str) -> (r: Result<DirSingle<T>, DirError>) {
        proof {
            lemma_children(*self);
        }
        match self.index.find(name) {
            Some(i) => {
                let _ = self.index.swap_remove(i);
                let taken = self.nodes.swap_remove(i);
                proof {
                    Self::lemma_node_taken(*old(self), *self, i as int);
                }
                Ok(taken)
            },
            None => Err(DirError::NoDir(name.to_owned())),
        }
    }

    fn remove_dir(&mut self, path: &str) -> (r: Result<DirSingle<T>, DirError>)
        decreases path@.len(),
    {
        proof {
            lemma_split_first_shorter(path@);
        }
        match split_once(path) {
            None => self.take_dir(path),
            Some((branch, rest)) => {
                proof {
                    if self.model().obtain(branch@) is Ok {
                        self.model().lemma_put_same(branch@);
                        let child = self.model().obtain(branch@)->Ok_0;
                        if child.remove(rest@) is Ok {
                            child.lemma_remove_records(rest@);
                        }
                    }
                }
                match self.obtain_dir_mut(branch) {
                    Ok(child) => child.remove_dir(rest),
                    Err(e) => Err(e),
                }
            },
        }
    }

    fn merge(&mut self, directory: DirSingle<T>) -> (r: Result<(), DirError>) {
        if directory.file.is_some() {
            return Err(DirError::FileConflict);
        }
        if let Some(name) = self.collision(&directory) {
            return Err(DirError::DuplicateName(name));
        }
        let ghost donor = directory.model();
        let ghost start = self.model();
        let mut rest = directory;
        proof {
            lemma_children(rest);
            start.lemma_first_collision(donor.order, 0);
            assert forall|i: int| 0 <= i < donor.order.len()
                implies (#[trigger] donor.order[i]).len()
                > 0 && donor.order[i] != self_alias() by {
                assert(donor.order.contains(donor.order[i]));
                if donor.order[i].len() == 0 {
                    assert(donor.order[i] =~= Seq::<char>::empty());
                }
            }
        }
        while rest.nodes.len() > 0
            invariant
                self.wf(),
                rest.index.wf(),
                rest.index.order().len() == rest.nodes.len(),
                rest.index.order() == donor.order.take(rest.nodes.len() as int),
                rest.nodes.len() <= donor.order.len(),
                donor.order.no_duplicates(),
                forall|i: int|
                    0 <= i < donor.order.len() ==> (#[trigger] donor.order[i]).len() > 0
                        && donor.order[i] != self_alias(),
                forall|i: int|
                    0 <= i < rest.nodes.len() ==> sound(#[trigger] rest.nodes[i])
                        && donor.children[donor.order[i]] == model_of(rest.nodes[i]),
                forall|i: int|
                    0 <= i < rest.nodes.len() ==> !self.model().children.contains_key(
                        #[trigger] donor.order[i],
                    ),
                self.model().absorb(donor, rest.nodes.len() as nat)
                    == Option::<T>::merged(start, donor).0,
            decreases rest.nodes.len(),
        {
            let k = rest.nodes.len() - 1;
            let ghost before = self.model();
            assert(rest.index.order()[k as int] == donor.order[k as int]);
            let name = rest.index.swap_remove(k);
            let child = rest.nodes.swap_remove(k);
            assert(rest.index.order() =~= donor.order.take(k as int));
            assert(child.model() == donor.children[name@]);
            assert forall|i: int| 0 <= i < k implies donor.order[i] != name@ by {
                assert(donor.order[i] != donor.order[k as int]);
            }
            self.attach(name, child);
        }
        Ok(())
    }

    fn crawl(&self) -> (r: Vec<&DirSingle<T>>)
        decreases self,
    {
        proof {
            lemma_children(*self);
            self.lemma_valid();
        }
        let mut found: Vec<&DirSingle<T>> = Vec::new();
        let mut i: usize = 0;
        assert(models(found@) =~= Seq::empty());
        while i < self.nodes.len()
            invariant
                self.wf(),
                i <= self.nodes.len(),
                self.nodes.len() == self.model().order.len(),
                self.model().children.dom().finite(),
                self.model().children.dom() == self.model().order.to_set(),
                forall|j: int|
                    0 <= j < self.nodes.len()
                        ==> self.model().children[#[trigger] self.model().order[j]]
                        == model_of(self.nodes[j]),
                models(found@) + self.model().descendants_from(i as nat)
                    == self.model().descendants(),
                forall|j: int| 0 <= j < found.len() ==> (#[trigger] found[j]).wf(),
            decreases self.nodes.len() - i,
        {
            let child = &self.nodes[i];
            let ghost before = found@;
            found.push(child);
            let mut below = child.crawl();
            let ghost lower = below@;
            found.append(&mut below);
            proof {
                assert(self.model().order.to_set().contains(self.model().order[i as int]));
                assert(found@ =~= before + seq![child] + lower);
                assert(models(found@) =~= models(before) + seq![child.model()] + models(lower));
                assert(self.model().descendants_from(i as nat) == seq![child.model()]
                    + child.model().descendants() + self.model().descendants_from((i + 1) as nat));
                assert(models(found@) + self.model().descendants_from((i + 1) as nat) =~= models(
                    before,
                ) + self.model().descendants_from(i as nat));
            }
            i += 1;
        }
        assert(models(found@) =~= models(found@) + self.model().descendants_from(i as nat));
        found
    }

    fn listing(&self, with_files: bool) -> (lines: Vec<Line>) {
        proof {
            reveal_strlit("");
            assert(""@ =~= bars(0));
        }
        self.lines("", Ghost(0), with_files)
    }

    fn tree(&self) -> (text: String) {
        let lines = self.listing(true);
        render(self.name.as_str(), &lines)
    }

    fn tree_dir(&self) -> (text: String) {
        let lines = self.listing(false);
        render(self.name.as_str(), &lines)
    }

    fn dir_names(&self) -> (names: Vec<String>) {
        self.index.names()
    }

    fn get_name(&self) -> (name: &String) {
        &self.name
    }

    fn get_depth(&self) -> (depth: usize) {
        self.depth
    }

    fn get_path(&self) -> (path: &String) {
        &self.path
    }
}

impl<T> DirFile<T> for DirSingle<T> {
    fn add_file(&mut self, file: T) -> (r: Option<T>) {
        let before = self.file.take();
        self.file = Some(file);
        proof {
            Self::lemma_file_changed(*old(self), *self);
        }
        before
    }

    fn insert_file(&mut self, path: &str, file: T) -> (r: Result<Option<T>, DirError>) {
        match rsplit_once(path) {
            None => Ok(self.add_file(file)),
            Some((dir, _)) => match self.borrow_dir_mut(dir) {
                Ok(holder) => Ok(holder.add_file(file)),
                Err(e) => Err(e),
            },
        }
    }

    fn take_file(&mut self) -> (r: Option<T>) {
        let before = self.file.take();
        proof {
            Self::lemma_file_changed(*old(self), *self);
        }
        before
    }

    fn remove_file(&mut self, path: &str) -> (r: Result<Option<T>, DirError>) {
        match rsplit_once(path) {
            None => Ok(self.take_file()),
            Some((dir, _)) => match self.borrow_dir_mut(dir) {
                Ok(holder) => Ok(holder.take_file()),
                Err(e) => Err(e),
            },
        }
    }

    fn obtain_file(&self) -> (r: Option<&T>) {
        match &self.file {
            Some(file) => Some(file),
            None => None,
        }
    }

    fn obtain_file_mut(&mut self) -> (r: Option<&mut T>) {
        proof {
            let a = *self;
            assert forall|b: DirSingle<T>|
                b.name == a.name && b.path == a.path && b.depth == a.depth && b.index == a.index
                    && #[trigger] b.nodes == a.nodes implies sound(b) && model_of(b) == model_of(
                    a,
                ).with_file(b.file) by {
                Self::lemma_file_changed(a, b);
            }
        }
        match &mut self.file {
            Some(file) => Some(file),
            None => None,
        }
    }

    fn borrow_file(&self, path: &str) -> (r: Result<Option<&T>, DirError>) {
        match rsplit_once(path) {
            None => Ok(self.obtain_file()),
            Some((dir, _)) => match self.borrow_dir(dir) {
                Ok(holder) => Ok(holder.obtain_file()),
                Err(e) => Err(e),
            },
        }
    }

    fn borrow_file_mut(&mut self, path: &str) -> (r: Result<Option<&mut T>, DirError>) {
        match rsplit_once(path) {
            None => Ok(self.obtain_file_mut()),
            Some((dir, _)) => {
                proof {
                    if self.model().locate(dir@) is Ok {
                        self.model().lemma_replace_same(dir@);
                    }
                }
                match self.borrow_dir_mut(dir) {
                    Ok(holder) => Ok(holder.obtain_file_mut()),
                    Err(e) => Err(e),
                }
            },
        }
    }
}

/// Whether `other` is a clone of `file`, or both are no file.
pub open spec fn file_cloned<T: Clone>(file: Option<T>, other: Option<T>) -> bool {
    match (file, other) {
        (Some(x), Some(y)) => cloned::<T>(x, y),
        (None, None) => true,
        _ => false,
    }
}

/// Whether `other` is a copy of `d`: it bears the same records, has the same names in
/// the same order, holds clones of the files, and has under each name a copy of the
/// child that `d` has there.
pub open spec fn copied<T: Clone>(d: NodeView<Option<T>>, other: NodeView<Option<T>>) -> bool
    decreases d,
{
    &&& other.same_records(d)
    &&& other.order == d.order
    &&& file_cloned(d.file, other.file)
    &&& other.children.dom() == d.children.dom()
    &&& forall|k: Seq<char>| #[trigger]
        d.children.contains_key(k) ==> (d.children.dom().finite() ==> copied(
            d.children[k],
            other.children[k],
        ))
}

impl<T: Clone> Clone for DirSingle<T> {
    /// A copy of this directory and of all that lies below it, whose files are clones of
    /// the files of this one.
    fn clone(&self) -> (r: Self)
        ensures
            r.model().same_records(self.model()),
            r.model().order == self.model().order,
            self.wf() ==> r.wf() && copied(self.model(), r.model()),
        decreases self,
    {
        let mut nodes: Vec<DirSingle<T>> = Vec::new();
        let mut i: usize = 0;
        while i < self.nodes.len()
            invariant
                i <= self.nodes.len(),
                nodes.len() == i,
                forall|j: int|
                    0 <= j < i ==> model_of(#[trigger] nodes[j]).same_records(
                        model_of(self.nodes[j]),
                    ) && (sound(self.nodes[j]) ==> sound(nodes[j]) && copied(
                        model_of(self.nodes[j]),
                        model_of(nodes[j]),
                    )),
            decreases self.nodes.len() - i,
        {
            let copy = self.nodes[i].clone();
            nodes.push(copy);
            i += 1;
        }
        let r = DirSingle {
            name: self.name.clone(),
            path: self.path.clone(),
            depth: self.depth,
            file: self.file.clone(),
            index: self.index.clone(),
            nodes,
        };
        proof {
            if sound(*self) {
                lemma_children(*self);
                assert(sound(r));
                lemma_children(r);
                lemma_table(self.index.order(), node_models(*self));
                assert forall|k: Seq<char>| #[trigger] model_of(*self).children.contains_key(k)
                    implies copied(model_of(*self).children[k], model_of(r).children[k]) by {
                    let j = self.index.order().index_of(k);
                    assert(self.index.order()[j] == k);
                }
            }
        }
        r
    }
}

impl<T> Default for DirSingle<T> {
    /// A directory without a name, a path, children or files.
    fn default() -> (d: Self)
        ensures
            d.wf(),
            d.model() == NodeView::<Option<T>>::root(Seq::empty(), None),
    {
        proof {
            reveal_strlit("");
        }
        let d = DirSingle::root("");
        assert(""@ =~= Seq::<char>::empty());
        d
    }
}

impl<T: PartialEq> PartialEq for DirSingle<T> {
    /// Whether two directories bear the same records, hold equal files, and have equal
    /// children under the same names, in whatever order.
    fn eq(&self, other: &Self) -> (r: bool)
        ensures
            self.wf() && other.wf() && plain_equality::<T>() ==> r == self.model().alike(
                other.model(),
            ),
        decreases self,
    {
        let ghost stated = self.wf() && other.wf() && plain_equality::<T>();
        let ghost names = self.index.order();
        proof {
            if stated {
                lemma_children(*self);
                lemma_children(*other);
                if model_of(*self).children.dom() == model_of(*other).children.dom() {
                    lemma_same_number(names, other.index.order());
                }
            }
        }
        if !(self.name == other.name && self.path == other.path && self.depth == other.depth
            && self.file == other.file) {
            return false;
        }
        let n = self.nodes.len();
        if other.nodes.len() != n || self.index.len() != n || other.index.len() != n {
            return false;
        }
        let mut i: usize = 0;
        while i < n
            invariant
                n == self.nodes.len(),
                n == other.nodes.len(),
                n == self.index.order().len(),
                names == self.index.order(),
                i <= n,
                stated == (self.wf() && other.wf() && plain_equality::<T>()),
                stated ==> forall|j: int|
                    0 <= j < i ==> other.index.order().contains(#[trigger] names[j]) && model_of(
                        *self,
                    ).children[names[j]].alike(model_of(*other).children[names[j]]),
            decreases n - i,
        {
            proof {
                if stated {
                    lemma_children(*self);
                    lemma_children(*other);
                    assert(names.to_set().contains(names[i as int]));
                }
            }
            match other.index.find(self.index.name_at(i).as_str()) {
                Some(j) => {
                    if j >= n || !self.nodes[i].eq(&other.nodes[j]) {
                        return false;
                    }
                },
                None => {
                    return false;
                },
            }
            i += 1;
        }
        proof {
            if stated {
                lemma_children(*self);
                lemma_children(*other);
                lemma_same_names(names, other.index.order());
                assert forall|k: Seq<char>| #[trigger] model_of(*self).children.contains_key(k)
                    implies model_of(*self).children[k].alike(model_of(*other).children[k]) by {
                    let j = names.index_of(k);
                    assert(names[j] == k);
                }
            }
        }
        true
    }
}

impl<T: PartialEq> PartialEqSpecImpl for DirSingle<T> {
    open spec fn obeys_eq_spec() -> bool {
        false
    }

    open spec fn eq_spec(&self, other: &Self) -> bool {
        self.model() == other.model()
    }
}

} // verus!
