//! What holds of the operations on directories, whatever the directory.

use vstd::prelude::*;
use crate::error::Failure;
use crate::files::FilesView;
use crate::listing::bar;
use crate::listing::bars;
use crate::listing::escape;
use crate::listing::guide_text;
use crate::listing::paints;
use crate::listing::shows;
use crate::model::NodeView;
use crate::model::Payload;
use crate::names::anonymous_name;
use crate::path::is_hidden;
use crate::path::joined;
use crate::path::leaf;
use crate::path::lemma_split_first_shorter;
use crate::path::lemma_split_last_shorter;
use crate::path::self_alias;
use crate::path::separator;
use crate::path::split_first;
use crate::path::split_last;

verus! {

/// A path of one segment is walked by looking that segment up, and inserting at it is
/// adding under it.
pub proof fn law_one_segment<F>(d: NodeView<F>, name: Seq<char>, child: NodeView<F>)
    requires
        !name.contains(separator()),
    ensures
        d.locate(name) == d.obtain(name),
        d.insert(name, child) == d.add(name, child),
        d.holder(name) == Ok::<_, Failure>(d),
{
    lemma_split_first_shorter(name);
    lemma_split_last_shorter(name);
}

/// A child that was just created is found under its name, and carries the name, the
/// path below its parent, and the depth of its parent plus one.
///
/// This holds for a name that is one segment of a path, is not the alias of the
/// directory itself, and is not taken. The path of a child of a directory whose own path
/// is empty is the name alone.
pub proof fn law_create_then_borrow<F>(d: NodeView<F>, name: Seq<char>, fresh: NodeView<F>)
    requires
        name.len() > 0,
        name != self_alias(),
        !name.contains(separator()),
        !d.children.contains_key(name),
    ensures
        d.insert(name, fresh) matches Ok((given, after)) && after.locate(name) matches Ok(found)
            && given == name && found == d.stamp(name, fresh) && found.name == name && found.path
            == d.child_path(name) && found.depth == d.depth + 1,
{
    lemma_split_first_shorter(name);
    lemma_split_last_shorter(name);
}

/// After a child was added under a name, adding another under the same name fails, and
/// says that the name is in use.
///
/// This holds for a name that is not empty: an empty name asks for a generated one.
pub proof fn law_second_add_fails<F>(
    d: NodeView<F>,
    name: Seq<char>,
    first: NodeView<F>,
    second: NodeView<F>,
)
    requires
        name.len() > 0,
        d.add(name, first) is Ok,
    ensures
        d.add(name, first) matches Ok((given, after)) && given == name && after.add(name, second)
            == Err::<(Seq<char>, NodeView<F>), Failure>(Failure::NameInUse(name))
            && after.order.len() == d.order.len() + 1,
{
}

/// After a directory was inserted at a path, inserting another at the same path fails,
/// and says that the last segment of the path is in use.
///
/// This holds for a path whose last segment is not empty: an empty one asks for a
/// generated name.
pub proof fn law_second_create_fails<F>(
    d: NodeView<F>,
    path: Seq<char>,
    first: NodeView<F>,
    second: NodeView<F>,
)
    requires
        leaf(path).len() > 0,
        d.insert(path, first) is Ok,
    ensures
        d.insert(path, first) matches Ok((given, after)) && after.insert(path, second) == Err::<
            (Seq<char>, NodeView<F>),
            Failure,
        >(Failure::NameInUse(leaf(path))),
{
    if let Some((dir, name)) = split_last(path) {
        let parent = d.locate(dir)->Ok_0;
        let (given, grown) = parent.add(name, first)->Ok_0;
        law_locate_replaced(d, dir, grown);
    }
}

/// Taking a child out and adding it again under its name restores the children, and the
/// records of the directory and of the child with all that lies below it. The names of
/// the children are the same afterwards; their order may differ.
pub proof fn law_take_then_add<F: Payload>(d: NodeView<F>, name: Seq<char>)
    requires
        d.valid(),
        d.children.contains_key(name),
    ensures
        d.take(name) matches Ok((taken, rest)) && rest.add(name, taken) matches Ok((given, after))
            && given == name && after.children == d.children && after.same_records(d)
            && after.file == d.file && after.order.to_set() == d.order.to_set()
            && after.order.len() == d.order.len(),
{
    let i = d.order.index_of(name);
    if name.len() == 0 {
        assert(name =~= Seq::<char>::empty());
    }
    assert(d.order.to_set().contains(name));
    assert(d.order.contains(name));
    law_restamp_same(d.children[name]);
    let rest = d.detach(name);
    let after = rest.attach(name, d.children[name]);
    assert(after.children =~= d.children);
    assert(after.order.to_set() =~= d.order.to_set()) by {
        assert forall|k: Seq<char>| d.order.contains(k) implies after.order.contains(k) by {
            let j = d.order.index_of(k);
            assert(d.order[j] == k);
            if k == name {
                assert(after.order[after.order.len() - 1] == k);
            } else if j == d.order.len() - 1 {
                assert(after.order[i] == k);
            } else {
                assert(after.order[j] == k);
            }
        }
        assert forall|k: Seq<char>| after.order.contains(k) implies d.order.contains(k) by {
            let j = after.order.index_of(k);
            assert(after.order[j] == k);
            if j == after.order.len() - 1 {
            } else if j == i {
                assert(d.order[d.order.len() - 1] == k);
            } else {
                assert(d.order[j] == k);
            }
        }
    }
}

/// Walking two paths joined by a separator is walking the first and, from where it
/// leads, the second.
pub proof fn law_locate_joined<F>(d: NodeView<F>, first: Seq<char>, second: Seq<char>)
    ensures
        d.locate(first + seq![separator()] + second) == (match d.locate(first) {
            Ok(found) => found.locate(second),
            Err(e) => Err(e),
        }),
    decreases first.len(),
{
    let joined = first + seq![separator()] + second;
    lemma_split_first_shorter(first);
    lemma_split_first_shorter(joined);
    joined.index_of_first_ensures(separator());
    first.index_of_first_ensures(separator());
    let j = joined.index_of_first(separator())->0;
    assert(joined[first.len() as int] == separator());
    assert(forall|k: int| 0 <= k < first.len() ==> joined[k] == first[k]);
    match split_first(first) {
        None => {
            assert(j == first.len());
            assert(joined.subrange(0, j) =~= first);
            assert(joined.subrange(j + 1, joined.len() as int) =~= second);
        },
        Some((head, rest)) => {
            let i = first.index_of_first(separator())->0;
            assert(j == i);
            assert(joined.subrange(0, j) =~= head);
            assert(joined.subrange(j + 1, joined.len() as int) =~= rest + seq![separator()]
                + second);
            if d.obtain(head) is Ok {
                law_locate_joined(d.obtain(head)->Ok_0, rest, second);
            }
        },
    }
}

/// The directory that holds the file addressed by a path is found segment by segment:
/// the first segment is looked up, and the rest of the path addresses the file from
/// there. The last segment is not looked up: it names the file.
pub proof fn law_holder_by_segments<F>(d: NodeView<F>, path: Seq<char>)
    ensures
        d.holder(path) == (match split_first(path) {
            None => Ok(d),
            Some((branch, rest)) => match d.obtain(branch) {
                Ok(child) => child.holder(rest),
                Err(e) => Err(e),
            },
        }),
{
    lemma_split_first_shorter(path);
    lemma_split_last_shorter(path);
    if let Some((branch, rest)) = split_first(path) {
        let i = branch.len() as int;
        lemma_split_first_shorter(branch);
        lemma_split_last_shorter(rest);
        path.index_of_last_ensures(separator());
        rest.index_of_last_ensures(separator());
        let last = path.index_of_last(separator())->0;
        assert(path[i] == separator());
        assert(forall|j: int| 0 <= j < rest.len() ==> path[i + 1 + j] == rest[j]);
        match split_last(rest) {
            None => {
                assert(last == i) by {
                    if last > i {
                        assert(rest[last - i - 1] == separator());
                    }
                }
                assert(path.subrange(0, last) =~= branch);
            },
            Some((dir, name)) => {
                let r = rest.index_of_last(separator())->0;
                assert(path[i + 1 + r] == separator());
                assert(last == i + 1 + r) by {
                    if last > i + 1 + r {
                        assert(rest[last - i - 1] == separator());
                    }
                }
                assert(path.subrange(0, last) =~= branch + seq![separator()] + dir);
                law_locate_joined(d, branch, dir);
            },
        }
    }
}

/// After the directory that a path leads to was replaced, the path leads to the
/// replacement.
pub proof fn law_locate_replaced<F>(d: NodeView<F>, path: Seq<char>, new: NodeView<F>)
    requires
        d.locate(path) is Ok,
    ensures
        d.replace(path, new).locate(path) == Ok::<_, Failure>(new),
    decreases path.len(),
{
    lemma_split_first_shorter(path);
    match split_first(path) {
        None => {},
        Some((head, rest)) => {
            let child = d.obtain(head)->Ok_0;
            law_locate_replaced(child, rest, new);
        },
    }
}

/// A directory that was just inserted at a path is found at the path that ends in the
/// name it got, and carries that name, the path below its parent, and the depth of its
/// parent plus one.
pub proof fn law_insert_then_borrow<F>(
    d: NodeView<F>,
    dir: Seq<char>,
    name: Seq<char>,
    child: NodeView<F>,
)
    requires
        !name.contains(separator()),
        d.insert(dir + seq![separator()] + name, child) is Ok,
    ensures
        d.locate(dir) matches Ok(parent) && d.insert(dir + seq![separator()] + name, child)
            matches Ok((given, after)) && after.locate(dir + seq![separator()] + given) == Ok::<
            _,
            Failure,
        >(parent.stamp(given, child)) && (name.len() > 0 ==> given == name),
{
    let path = dir + seq![separator()] + name;
    lemma_split_last_shorter(path);
    path.index_of_last_ensures(separator());
    let i = path.index_of_last(separator())->0;
    assert(path[dir.len() as int] == separator());
    assert(forall|k: int| 0 <= k < name.len() ==> path[dir.len() + 1 + k] == name[k]);
    assert(i == dir.len());
    assert(path.subrange(0, i) =~= dir);
    assert(path.subrange(i + 1, path.len() as int) =~= name);
    let parent = d.locate(dir)->Ok_0;
    let (given, grown) = parent.add(name, child)->Ok_0;
    parent.lemma_fresh_name();
    let after = d.replace(dir, grown);
    law_locate_replaced(d, dir, grown);
    law_locate_joined(after, dir, given);
    lemma_split_first_shorter(given);
}

/// A path and the same path followed by a separator and the alias lead to the same
/// directory, or fail alike.
pub proof fn law_alias_suffix<F>(d: NodeView<F>, path: Seq<char>)
    ensures
        d.locate(path + seq![separator()] + self_alias()) == d.locate(path),
{
    law_locate_joined(d, path, self_alias());
    lemma_split_first_shorter(self_alias());
    assert(self_alias()[0] == '.');
}

/// A child inserted without a name gets the generated name that carries the number of
/// children, or the next one that is free. The name is hidden, and the child is found
/// under it.
pub proof fn law_anonymous_insert<F>(d: NodeView<F>, child: NodeView<F>)
    requires
        d.add(Seq::empty(), child) is Ok,
    ensures
        d.add(Seq::empty(), child) matches Ok((given, after)) && after.locate(given) matches Ok(
            found,
        ) && found == d.stamp(given, child) && d.fresh_name() == Some(given) && is_hidden(given)
            && (!d.children.contains_key(anonymous_name(d.order.len())) ==> given
            == anonymous_name(d.order.len())),
{
    d.lemma_fresh_name();
    let given = d.fresh_name()->0;
    lemma_split_first_shorter(given);
}

/// A path that ends in a separator inserts a child without a name into the directory
/// that the rest of the path leads to.
pub proof fn law_trailing_separator<F>(d: NodeView<F>, dir: Seq<char>, child: NodeView<F>)
    ensures
        d.insert(dir + seq![separator()], child) == (match d.locate(dir) {
            Ok(parent) => match parent.add(Seq::empty(), child) {
                Ok((given, grown)) => Ok((given, d.replace(dir, grown))),
                Err(e) => Err(e),
            },
            Err(e) => Err(e),
        }),
{
    let path = dir + seq![separator()];
    lemma_split_last_shorter(path);
    path.index_of_last_ensures(separator());
    let i = path.index_of_last(separator())->0;
    assert(path[path.len() - 1] == separator());
    assert(i == path.len() - 1);
    assert(path.subrange(0, i) =~= dir);
    assert(path.subrange(i + 1, path.len() as int) =~= Seq::<char>::empty());
}

/// The names among the first `k` of a sequence are those among the first `k - 1`, and
/// the one after them.
proof fn lemma_take_one_more(names: Seq<Seq<char>>, k: int)
    requires
        0 < k <= names.len(),
    ensures
        names.take(k).to_set() == names.take(k - 1).to_set().insert(names[k - 1]),
{
    let name = names[k - 1];
    assert forall|n: Seq<char>| names.take(k).contains(n) implies names.take(
        k - 1,
    ).to_set().insert(name).contains(n) by {
        let j = names.take(k).index_of(n);
        if j < k - 1 {
            assert(names.take(k - 1)[j] == n);
        }
    }
    assert forall|n: Seq<char>| names.take(k - 1).to_set().insert(name).contains(n)
        implies names.take(k).contains(n) by {
        if n == name {
            assert(names.take(k)[k - 1] == n);
        } else {
            let j = names.take(k - 1).index_of(n);
            assert(names.take(k)[j] == n);
        }
    }
    assert(names.take(k).to_set() =~= names.take(k - 1).to_set().insert(name));
}

/// Moving children under names of which none is taken: afterwards the recipient has its
/// own children as they were, and each moved child under the name it had, recorded anew
/// as a child of the recipient. The records and the files of the recipient stay.
pub proof fn law_absorb<F>(d: NodeView<F>, donor: NodeView<F>, k: nat)
    requires
        k <= donor.order.len(),
        donor.order.no_duplicates(),
        forall|i: int| 0 <= i < k ==> !d.children.contains_key(#[trigger] donor.order[i]),
    ensures
        d.absorb(donor, k).same_records(d),
        d.absorb(donor, k).file == d.file,
        d.absorb(donor, k).children.dom() == d.children.dom().union(
            donor.order.take(k as int).to_set(),
        ),
        forall|n: Seq<char>| #[trigger]
            d.children.contains_key(n) ==> d.absorb(donor, k).children[n] == d.children[n],
        forall|i: int|
            0 <= i < k ==> d.absorb(donor, k).children[#[trigger] donor.order[i]] == d.stamp(
                donor.order[i],
                donor.children[donor.order[i]],
            ),
    decreases k,
{
    if k == 0 {
        assert(donor.order.take(0).to_set() =~= Set::<Seq<char>>::empty());
        assert(d.children.dom().union(donor.order.take(0).to_set()) =~= d.children.dom());
    } else {
        let name = donor.order[k - 1];
        let grown = d.attach(name, donor.children[name]);
        assert forall|i: int| 0 <= i < k - 1 implies !grown.children.contains_key(
            #[trigger] donor.order[i],
        ) by {
            assert(donor.order[i] != donor.order[k - 1]);
        }
        law_absorb(grown, donor, (k - 1) as nat);
        let after = d.absorb(donor, k);
        assert(after == grown.absorb(donor, (k - 1) as nat));
        lemma_take_one_more(donor.order, k as int);
        assert(after.children.dom() =~= d.children.dom().union(
            donor.order.take(k as int).to_set(),
        ));
        assert(grown.children.contains_key(name));
        assert forall|n: Seq<char>| #[trigger] d.children.contains_key(n) implies after.children[n]
            == d.children[n] by {
            assert(grown.children.contains_key(n));
        }
        assert forall|i: int| 0 <= i < k implies after.children[#[trigger] donor.order[i]]
            == d.stamp(donor.order[i], donor.children[donor.order[i]]) by {
            if i == k - 1 {
                assert(after.children[name] == grown.children[name]);
            } else {
                assert(grown.stamp(donor.order[i], donor.children[donor.order[i]]) == d.stamp(
                    donor.order[i],
                    donor.children[donor.order[i]],
                ));
            }
        }
    }
}

/// Merging a donor that holds no file, and of whose children none bears a name that is
/// taken in the recipient, succeeds: the recipient gets each child of the donor under
/// the name it had, recorded anew as its own child, and keeps what it had.
pub proof fn law_merge_single<T>(d: NodeView<Option<T>>, donor: NodeView<Option<T>>)
    requires
        donor.file is None,
        donor.order.no_duplicates(),
        forall|i: int|
            0 <= i < donor.order.len() ==> !d.children.contains_key(#[trigger] donor.order[i]),
    ensures
        Option::<T>::merged(d, donor).1 is None,
        Option::<T>::merged(d, donor).0.same_records(d),
        Option::<T>::merged(d, donor).0.file == d.file,
        Option::<T>::merged(d, donor).0.children.dom() == d.children.dom().union(
            donor.order.to_set(),
        ),
        forall|n: Seq<char>| #[trigger]
            d.children.contains_key(n) ==> Option::<T>::merged(d, donor).0.children[n]
                == d.children[n],
        forall|i: int|
            0 <= i < donor.order.len() ==> Option::<T>::merged(
                d,
                donor,
            ).0.children[#[trigger] donor.order[i]] == d.stamp(
                donor.order[i],
                donor.children[donor.order[i]],
            ),
{
    d.lemma_first_collision(donor.order, 0);
    if d.first_collision(donor.order, 0) is Some {
        let name = d.first_collision(donor.order, 0)->0;
        let i = donor.order.index_of(name);
        assert(!d.children.contains_key(donor.order[i]));
    }
    law_absorb(d, donor, donor.order.len());
    assert(donor.order.take(donor.order.len() as int) =~= donor.order);
}

/// Adding files under names of which none is taken: afterwards there are the files that
/// were there, as they were, and each added file under the name it had.
pub proof fn law_absorb_files<T>(held: FilesView<T>, files: FilesView<T>, k: nat)
    requires
        k <= files.order.len(),
        files.order.no_duplicates(),
        forall|i: int| 0 <= i < k ==> !held.entries.contains_key(#[trigger] files.order[i]),
    ensures
        held.absorb(files, k).entries.dom() == held.entries.dom().union(
            files.order.take(k as int).to_set(),
        ),
        forall|n: Seq<char>| #[trigger]
            held.entries.contains_key(n) ==> held.absorb(files, k).entries[n] == held.entries[n],
        forall|i: int|
            0 <= i < k ==> held.absorb(files, k).entries[#[trigger] files.order[i]]
                == files.entries[files.order[i]],
    decreases k,
{
    if k == 0 {
        assert(files.order.take(0).to_set() =~= Set::<Seq<char>>::empty());
        assert(held.entries.dom().union(files.order.take(0).to_set()) =~= held.entries.dom());
    } else {
        let name = files.order[k - 1];
        let grown = FilesView {
            entries: held.entries.insert(name, files.entries[name]),
            order: held.order.push(name),
        };
        assert forall|i: int| 0 <= i < k - 1 implies !grown.entries.contains_key(
            #[trigger] files.order[i],
        ) by {
            assert(files.order[i] != files.order[k - 1]);
        }
        law_absorb_files(grown, files, (k - 1) as nat);
        let after = held.absorb(files, k);
        assert(after == grown.absorb(files, (k - 1) as nat));
        lemma_take_one_more(files.order, k as int);
        assert(after.entries.dom() =~= held.entries.dom().union(
            files.order.take(k as int).to_set(),
        ));
        assert(grown.entries.contains_key(name));
        assert forall|n: Seq<char>| #[trigger] held.entries.contains_key(n)
            implies after.entries[n] == held.entries[n] by {
            assert(grown.entries.contains_key(n));
        }
        assert forall|i: int| 0 <= i < k implies after.entries[#[trigger] files.order[i]]
            == files.entries[files.order[i]] by {
            if i == k - 1 {
                assert(after.entries[name] == grown.entries[name]);
            }
        }
    }
}

/// Merging a donor of whose files and of whose children none bears a name that is taken
/// in the recipient succeeds: the recipient gets each file and each child of the donor
/// under the name it had, the child recorded anew as its own, and keeps what it had.
pub proof fn law_merge_multi<T>(d: NodeView<FilesView<T>>, donor: NodeView<FilesView<T>>)
    requires
        donor.order.no_duplicates(),
        donor.file.order.no_duplicates(),
        forall|i: int|
            0 <= i < donor.order.len() ==> !d.children.contains_key(#[trigger] donor.order[i]),
        forall|i: int|
            0 <= i < donor.file.order.len() ==> !d.file.entries.contains_key(
                #[trigger] donor.file.order[i],
            ),
    ensures
        FilesView::<T>::merged(d, donor).1 is None,
        FilesView::<T>::merged(d, donor).0.same_records(d),
        FilesView::<T>::merged(d, donor).0.file.entries.dom() == d.file.entries.dom().union(
            donor.file.order.to_set(),
        ),
        forall|n: Seq<char>| #[trigger]
            d.file.entries.contains_key(n) ==> FilesView::<T>::merged(d, donor).0.file.entries[n]
                == d.file.entries[n],
        forall|i: int|
            0 <= i < donor.file.order.len() ==> FilesView::<T>::merged(
                d,
                donor,
            ).0.file.entries[#[trigger] donor.file.order[i]]
                == donor.file.entries[donor.file.order[i]],
        FilesView::<T>::merged(d, donor).0.children.dom() == d.children.dom().union(
            donor.order.to_set(),
        ),
        forall|n: Seq<char>| #[trigger]
            d.children.contains_key(n) ==> FilesView::<T>::merged(d, donor).0.children[n]
                == d.children[n],
        forall|i: int|
            0 <= i < donor.order.len() ==> FilesView::<T>::merged(
                d,
                donor,
            ).0.children[#[trigger] donor.order[i]] == d.stamp(
                donor.order[i],
                donor.children[donor.order[i]],
            ),
{
    d.lemma_first_collision(donor.order, 0);
    d.file.lemma_first_collision(donor.file.order, 0);
    if d.file.first_collision(donor.file.order, 0) is Some {
        let name = d.file.first_collision(donor.file.order, 0)->0;
        let i = donor.file.order.index_of(name);
        assert(!d.file.entries.contains_key(donor.file.order[i]));
    }
    if d.first_collision(donor.order, 0) is Some {
        let name = d.first_collision(donor.order, 0)->0;
        let i = donor.order.index_of(name);
        assert(!d.children.contains_key(donor.order[i]));
    }
    law_absorb_files(d.file, donor.file, donor.file.order.len());
    assert(donor.file.order.take(donor.file.order.len() as int) =~= donor.file.order);
    let filled = d.with_file(d.file.absorb(donor.file, donor.file.order.len()));
    law_absorb(filled, donor, donor.order.len());
    assert(donor.order.take(donor.order.len() as int) =~= donor.order);
    assert forall|i: int| 0 <= i < donor.order.len() implies FilesView::<T>::merged(
        d,
        donor,
    ).0.children[#[trigger] donor.order[i]] == d.stamp(
        donor.order[i],
        donor.children[donor.order[i]],
    ) by {
        assert(filled.stamp(donor.order[i], donor.children[donor.order[i]]) == d.stamp(
            donor.order[i],
            donor.children[donor.order[i]],
        ));
    }
}

/// Merging a donor that holds no file, and has a child whose name is taken in the
/// recipient, fails with a duplicate name and leaves the recipient as it was.
pub proof fn law_merge_collision_single<T>(
    d: NodeView<Option<T>>,
    donor: NodeView<Option<T>>,
    i: int,
)
    requires
        donor.file is None,
        0 <= i < donor.order.len(),
        d.children.contains_key(donor.order[i]),
    ensures
        Option::<T>::merged(d, donor).0 == d,
        Option::<T>::merged(d, donor).1 matches Some(Failure::DuplicateName(name))
            && d.children.contains_key(name) && donor.order.contains(name),
{
    d.lemma_first_collision(donor.order, 0);
}

/// Merging a donor that holds a file fails with a file conflict and leaves the recipient
/// as it was.
pub proof fn law_merge_file_conflict<T>(d: NodeView<Option<T>>, donor: NodeView<Option<T>>)
    requires
        donor.file is Some,
    ensures
        Option::<T>::merged(d, donor) == (d, Some(Failure::FileConflict)),
{
}

/// Merging a donor that has a child whose name is taken in the recipient fails with a
/// duplicate name and leaves the recipient as it was.
pub proof fn law_merge_collision_multi<T>(
    d: NodeView<FilesView<T>>,
    donor: NodeView<FilesView<T>>,
    i: int,
)
    requires
        0 <= i < donor.order.len(),
        d.children.contains_key(donor.order[i]),
    ensures
        FilesView::<T>::merged(d, donor).0 == d,
        FilesView::<T>::merged(d, donor).1 matches Some(Failure::DuplicateName(name)) && (
        d.children.contains_key(name) || d.file.entries.contains_key(name)),
{
    d.lemma_first_collision(donor.order, 0);
    d.file.lemma_first_collision(donor.file.order, 0);
}

/// Merging a donor that has a file whose name is taken in the recipient fails with a
/// duplicate name and leaves the recipient as it was.
pub proof fn law_merge_file_collision_multi<T>(
    d: NodeView<FilesView<T>>,
    donor: NodeView<FilesView<T>>,
    i: int,
)
    requires
        0 <= i < donor.file.order.len(),
        d.file.entries.contains_key(donor.file.order[i]),
    ensures
        FilesView::<T>::merged(d, donor).0 == d,
        FilesView::<T>::merged(d, donor).1 matches Some(Failure::DuplicateName(name))
            && d.file.entries.contains_key(name) && donor.file.order.contains(name),
{
    d.file.lemma_first_collision(donor.file.order, 0);
}

/// A child is found under its name, hidden or not, and records that name. Where the
/// name is one segment of a path, the child is found by that path.
pub proof fn law_hidden_is_found<F: Payload>(d: NodeView<F>, name: Seq<char>)
    requires
        d.valid(),
        d.children.contains_key(name),
    ensures
        d.obtain(name) == Ok::<_, Failure>(d.children[name]),
        d.children[name].name == name,
        d.stamped(name, d.children[name]),
        !name.contains(separator()) ==> d.locate(name) == Ok::<_, Failure>(d.children[name]),
{
    if name.len() == 0 {
        assert(name =~= Seq::<char>::empty());
    }
    lemma_split_first_shorter(name);
}

/// What a path leads to in a valid tree is valid: every directory of the tree records
/// the name it stands under, the path below its parent, and the depth of its parent
/// plus one, and so does all that lies below it.
pub proof fn law_located_is_valid<F: Payload>(d: NodeView<F>, path: Seq<char>)
    requires
        d.valid(),
        d.locate(path) is Ok,
    ensures
        d.locate(path)->Ok_0.valid(),
    decreases path.len(),
{
    lemma_split_first_shorter(path);
    if let Some((branch, rest)) = split_first(path) {
        law_located_is_valid(d.obtain(branch)->Ok_0, rest);
    }
}

/// A directory that is recorded anew is valid again: it and every directory below it
/// record the name they stand under, the path below their parent, and the depth of
/// their parent plus one.
pub proof fn law_restamped_is_valid<F: Payload>(
    d: NodeView<F>,
    name: Seq<char>,
    path: Seq<char>,
    depth: nat,
)
    requires
        d.valid(),
        depth <= path.len(),
    ensures
        d.restamped(name, path, depth).valid(),
        d.restamped(name, path, depth).name == name,
        d.restamped(name, path, depth).path == path,
        d.restamped(name, path, depth).depth == depth,
        d.restamped(name, path, depth).order == d.order,
        d.restamped(name, path, depth).file == d.file,
        d.restamped(name, path, depth).children.dom() == d.children.dom(),
    decreases d,
{
    let after = d.restamped(name, path, depth);
    vstd::seq_lib::seq_to_set_is_finite(d.order);
    assert(after.children.dom() =~= d.children.dom());
    assert forall|k: Seq<char>| #[trigger] after.children.contains_key(k) implies {
        &&& after.children.dom().finite()
        &&& after.stamped(k, after.children[k])
        &&& after.children[k].valid()
    } by {
        if k.len() == 0 {
            assert(k =~= Seq::<char>::empty());
        }
        law_restamped_is_valid(d.children[k], k, joined(path, k), depth + 1);
    }
}

/// Adding a valid directory to a valid directory leaves it valid: in the whole tree,
/// and in what was added with all that lies below it, every directory records the name
/// it stands under, the path below its parent, and the depth of its parent plus one.
pub proof fn law_add_keeps_valid<F: Payload>(d: NodeView<F>, name: Seq<char>, child: NodeView<F>)
    requires
        d.valid(),
        child.valid(),
        d.add(name, child) is Ok,
    ensures
        d.add(name, child) matches Ok((given, after)) && after.valid() && after.children[given]
            == child.restamped(given, joined(d.path, given), d.depth + 1),
{
    d.lemma_fresh_name();
    let (given, after) = d.add(name, child)->Ok_0;
    vstd::seq_lib::seq_to_set_is_finite(d.order);
    law_restamped_is_valid(child, given, joined(d.path, given), d.depth + 1);
    assert(after.order.to_set() =~= after.children.dom()) by {
        assert forall|k: Seq<char>| after.order.contains(k) <==> d.order.contains(k) || k
            == given by {
            if after.order.contains(k) {
                let i = after.order.index_of(k);
                if i < d.order.len() {
                    assert(d.order[i] == k);
                }
            }
            if d.order.contains(k) {
                let i = d.order.index_of(k);
                assert(after.order[i] == k);
            }
            if k == given {
                assert(after.order[d.order.len() as int] == k);
            }
        }
    }
    assert(!d.order.contains(given)) by {
        assert(!d.order.to_set().contains(given));
    }
    assert forall|k: Seq<char>| #[trigger] after.children.contains_key(k) implies {
        &&& after.children.dom().finite()
        &&& after.stamped(k, after.children[k])
        &&& after.children[k].valid()
    } by {
        if k != given {
            assert(d.children.contains_key(k));
        }
    }
}

/// A directory that is recorded anew where it already stands is as it was.
pub proof fn law_restamp_same<F: Payload>(d: NodeView<F>)
    requires
        d.valid(),
    ensures
        d.restamped(d.name, d.path, d.depth) == d,
    decreases d,
{
    vstd::seq_lib::seq_to_set_is_finite(d.order);
    assert(d.restamped(d.name, d.path, d.depth).children =~= d.children) by {
        assert forall|k: Seq<char>| #[trigger] d.children.contains_key(k) implies d.restamped(
            d.name,
            d.path,
            d.depth,
        ).children[k] == d.children[k] by {
            law_restamp_same(d.children[k]);
        }
    }
    assert(d.restamped(d.name, d.path, d.depth) =~= d);
}

/// The guide of a line holds no escape character, so that it stands in the text of a
/// listing as it is.
pub proof fn law_guide_is_plain(level: nat)
    ensures
        !guide_text(level).contains(escape()),
        forall|out: Seq<char>| paints(out, guide_text(level)) ==> shows(out, guide_text(level)),
{
    lemma_bars_are_plain(level);
    let guide = guide_text(level);
    if guide.contains(escape()) {
        let i = choose|i: int| 0 <= i < guide.len() && guide[i] == escape();
        if 3 <= i < 3 + bars(level).len() {
            assert(guide[i] == bars(level)[i - 3]);
        }
    }
}

/// The marks of the levels above a line hold no escape character.
proof fn lemma_bars_are_plain(level: nat)
    ensures
        forall|i: int| 0 <= i < bars(level).len() ==> #[trigger] bars(level)[i] != escape(),
    decreases level,
{
    if level > 0 {
        lemma_bars_are_plain((level - 1) as nat);
        let before = bars((level - 1) as nat);
        assert forall|i: int| 0 <= i < bars(level).len() implies #[trigger] bars(level)[i]
            != escape() by {
            if i < before.len() {
                assert(bars(level)[i] == before[i]);
            } else {
                assert(bars(level)[i] == bar()[i - before.len()]);
            }
        }
    }
}

/// No line of a listing that stands for a directory bears a hidden name, at any level.
pub proof fn law_listing_omits_hidden<F: Payload>(d: NodeView<F>, level: nat, with_files: bool)
    ensures
        forall|j: int|
            0 <= j < d.listing(level, with_files).len() ==> {
                let line = #[trigger] d.listing(level, with_files)[j];
                line.kind is Directory ==> !is_hidden(line.label)
            },
    decreases d, d.order.len() + 1,
{
    if with_files {
        d.file.lemma_lines_are_files(level);
    }
    lemma_listing_from(d, level, with_files, 0);
}

/// `law_listing_omits_hidden`, of the lines that the children from position `i` on
/// contribute.
proof fn lemma_listing_from<F: Payload>(d: NodeView<F>, level: nat, with_files: bool, i: nat)
    ensures
        forall|j: int|
            0 <= j < d.listing_from(level, with_files, i).len() ==> {
                let line = #[trigger] d.listing_from(level, with_files, i)[j];
                line.kind is Directory ==> !is_hidden(line.label)
            },
    decreases d, d.order.len() - i,
{
    if i < d.order.len() && d.children.dom().finite()
        && d.children.contains_key(d.order[i as int]) {
        let name = d.order[i as int];
        if !is_hidden(name) {
            law_listing_omits_hidden(d.children[name], level + 1, with_files);
        }
        lemma_listing_from(d, level, with_files, i + 1);
    }
}

/// No line of a listing that stands for one of several named files bears a hidden name.
pub proof fn law_listing_omits_hidden_files<T>(files: FilesView<T>, level: nat)
    ensures
        forall|j: int|
            0 <= j < files.lines(level).len() ==> !is_hidden(
                (#[trigger] files.lines(level)[j]).label,
            ),
{
    files.lemma_lines_from(level, 0);
}

/// A file that was just put at a path is the file addressed by that path.
pub proof fn law_insert_file_then_borrow_single<T>(
    d: NodeView<Option<T>>,
    path: Seq<char>,
    file: T,
)
    requires
        d.insert_file(path, file) is Ok,
    ensures
        d.insert_file(path, file) matches Ok((before, after)) && after.borrow_file(path) == Ok::<
            _,
            Failure,
        >(Some(file)) && d.borrow_file(path) == Ok::<_, Failure>(before),
{
    if let Some((dir, _)) = split_last(path) {
        let h = d.locate(dir)->Ok_0;
        law_locate_replaced(d, dir, h.with_file(Some(file)));
    }
}

/// A file that was just added at a path is the file addressed by that path.
pub proof fn law_insert_file_then_borrow_multi<T>(
    d: NodeView<FilesView<T>>,
    path: Seq<char>,
    file: T,
)
    requires
        d.insert_file(path, file) is Ok,
    ensures
        d.insert_file(path, file) matches Ok(after) && after.borrow_file(path) == Ok::<
            _,
            Failure,
        >(file),
{
    if let Some((dir, _)) = split_last(path) {
        let h = d.locate(dir)->Ok_0;
        let files = h.file.add(leaf(path), file)->Ok_0;
        law_locate_replaced(d, dir, h.with_file(files));
    }
}

/// A directory that holds one file holds the file that was put last, and putting a file
/// hands out the one held before.
pub proof fn law_single_overwrite<T>(d: NodeView<Option<T>>, first: T, second: T)
    ensures
        d.with_file(Some(first)).file == Some(first),
        d.with_file(Some(first)).with_file(Some(second)) == d.with_file(Some(second)),
{
}

/// After a file was added under a name, adding another under the same name fails, says
/// that the name is in use, and the first file is still the one under that name.
pub proof fn law_multi_keeps_first<T>(files: FilesView<T>, name: Seq<char>, first: T, second: T)
    requires
        files.add(name, first) is Ok,
    ensures
        files.add(name, first) matches Ok(after) && after.add(name, second) == Err::<
            FilesView<T>,
            Failure,
        >(Failure::NameInUse(name)) && after.get(name) == Ok::<T, Failure>(first),
{
}

} // verus!
