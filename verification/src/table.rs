//! Names in a row beside values in a row, read as a map from each name to the value
//! in the same position.

use vstd::prelude::*;
use vstd::std_specs::cmp::PartialEqSpec;

verus! {

/// A sequence after the item at `i` was taken out and the last item moved into its place.
pub open spec fn swap_removed<A>(s: Seq<A>, i: int) -> Seq<A> {
    s.update(i, s.last()).drop_last()
}

/// The map that gives each name of `names` the value in the same position of `values`.
pub open spec fn table<V>(names: Seq<Seq<char>>, values: Seq<V>) -> Map<Seq<char>, V> {
    Map::new(|k: Seq<char>| names.contains(k), |k: Seq<char>| values[names.index_of(k)])
}

/// Whether `names` and `values` make a table: there is a value for each name, and no
/// name stands twice.
pub open spec fn tabular<V>(names: Seq<Seq<char>>, values: Seq<V>) -> bool {
    names.no_duplicates() && names.len() == values.len()
}

/// In a sequence without duplicates an item is found where it stands.
pub proof fn lemma_index_of<A>(s: Seq<A>, i: int)
    requires
        s.no_duplicates(),
        0 <= i < s.len(),
    ensures
        s.index_of(s[i]) == i,
        s.contains(s[i]),
{
}

/// A table holds the names of its row, and under each the value beside it.
pub proof fn lemma_table<V>(names: Seq<Seq<char>>, values: Seq<V>)
    requires
        tabular(names, values),
    ensures
        table(names, values).dom() == names.to_set(),
        table(names, values).dom().finite(),
        forall|i: int|
            0 <= i < names.len() ==> table(names, values)[#[trigger] names[i]] == values[i],
{
    assert(table(names, values).dom() =~= names.to_set());
    vstd::seq_lib::seq_to_set_is_finite(names);
    assert forall|i: int| 0 <= i < names.len() implies table(names, values)[#[trigger] names[i]]
        == values[i] by {
        lemma_index_of(names, i);
    }
}

/// A name and a value appended to the rows are one more entry of the table.
pub proof fn lemma_table_push<V>(names: Seq<Seq<char>>, values: Seq<V>, name: Seq<char>, value: V)
    requires
        tabular(names, values),
        !names.contains(name),
    ensures
        tabular(names.push(name), values.push(value)),
        table(names.push(name), values.push(value)) == table(names, values).insert(name, value),
        forall|k: Seq<char>| names.push(name).contains(k) <==> names.contains(k) || k == name,
{
    let longer = names.push(name);
    let n = names.len() as int;
    assert forall|k: Seq<char>| longer.contains(k) <==> names.contains(k) || k == name by {
        if longer.contains(k) {
            let i = choose|i: int| 0 <= i < longer.len() && longer[i] == k;
            if i < n {
                assert(names[i] == k);
            }
        }
        if names.contains(k) {
            let i = choose|i: int| 0 <= i < names.len() && names[i] == k;
            assert(longer[i] == k);
        }
        if k == name {
            assert(longer[n] == k);
        }
    }
    assert forall|i: int, j: int| 0 <= i < longer.len() && 0 <= j < longer.len() && i != j
        implies longer[i] != longer[j] by {
        if i < n {
            assert(names.contains(longer[i]));
        }
        if j < n {
            assert(names.contains(longer[j]));
        }
    }
    assert(table(longer, values.push(value)) =~= table(names, values).insert(name, value)) by {
        assert forall|k: Seq<char>| longer.contains(k) implies #[trigger] table(
            longer,
            values.push(value),
        )[k] == table(names, values).insert(name, value)[k] by {
            let i = longer.index_of(k);
            assert(longer[i] == k);
            if i < n {
                assert(names[i] == k);
                lemma_index_of(names, i);
            }
        }
    }
}

/// Replacing the value in one position replaces the value under the name beside it.
pub proof fn lemma_table_update<V>(names: Seq<Seq<char>>, values: Seq<V>, i: int, value: V)
    requires
        tabular(names, values),
        0 <= i < names.len(),
    ensures
        table(names, values.update(i, value)) == table(names, values).insert(names[i], value),
{
    lemma_index_of(names, i);
    assert(table(names, values.update(i, value)) =~= table(names, values).insert(names[i], value))
        by {
        assert forall|k: Seq<char>| names.contains(k) implies #[trigger] table(
            names,
            values.update(i, value),
        )[k] == table(names, values).insert(names[i], value)[k] by {
            let j = names.index_of(k);
            assert(names[j] == k);
        }
    }
}

/// Taking a name and its value out of the rows, the last of each moving into the gap,
/// takes the entry of that name out of the table.
pub proof fn lemma_table_swap_removed<V>(names: Seq<Seq<char>>, values: Seq<V>, i: int)
    requires
        tabular(names, values),
        0 <= i < names.len(),
    ensures
        tabular(swap_removed(names, i), swap_removed(values, i)),
        table(swap_removed(names, i), swap_removed(values, i)) == table(names, values).remove(
            names[i],
        ),
        forall|k: Seq<char>|
            swap_removed(names, i).contains(k) <==> names.contains(k) && k != names[i],
{
    let shorter = swap_removed(names, i);
    let fewer = swap_removed(values, i);
    let name = names[i];
    let last = names.len() - 1;
    assert forall|k: Seq<char>| shorter.contains(k) <==> names.contains(k) && k != name by {
        if shorter.contains(k) {
            let j = choose|j: int| 0 <= j < shorter.len() && shorter[j] == k;
            if j == i {
                assert(names[last] == k);
            } else {
                assert(names[j] == k);
            }
        }
        if names.contains(k) && k != name {
            let j = names.index_of(k);
            assert(names[j] == k);
            if j == last {
                assert(shorter[i] == k);
            } else {
                assert(shorter[j] == k);
            }
        }
    }
    assert(table(shorter, fewer) =~= table(names, values).remove(name)) by {
        assert forall|k: Seq<char>| shorter.contains(k) implies #[trigger] table(shorter, fewer)[k]
            == table(names, values).remove(name)[k] by {
            let j = shorter.index_of(k);
            assert(shorter[j] == k);
            if j == i {
                lemma_index_of(names, last);
            } else {
                lemma_index_of(names, j);
            }
        }
    }
}

/// Whether `==` on `T` tells whether two values are the same.
pub open spec fn plain_equality<T: PartialEq>() -> bool {
    T::obeys_eq_spec() && forall|x: T, y: T| #[trigger] x.eq_spec(&y) == (x == y)
}

/// Two rows of as many names, each name once, of which the second holds every name of
/// the first, hold the same names.
pub proof fn lemma_same_names(names: Seq<Seq<char>>, others: Seq<Seq<char>>)
    requires
        names.no_duplicates(),
        others.no_duplicates(),
        names.len() == others.len(),
        forall|i: int| 0 <= i < names.len() ==> others.contains(#[trigger] names[i]),
    ensures
        names.to_set() == others.to_set(),
{
    names.unique_seq_to_set();
    others.unique_seq_to_set();
    vstd::seq_lib::seq_to_set_is_finite(names);
    vstd::seq_lib::seq_to_set_is_finite(others);
    assert(names.to_set().subset_of(others.to_set())) by {
        assert forall|k: Seq<char>| names.to_set().contains(k) implies others.to_set().contains(
            k,
        ) by {
            let i = names.index_of(k);
            assert(names[i] == k);
        }
    }
    vstd::set_lib::lemma_subset_equality(names.to_set(), others.to_set());
}

/// Two rows that hold the same names, each name once, hold as many.
pub proof fn lemma_same_number(names: Seq<Seq<char>>, others: Seq<Seq<char>>)
    requires
        names.no_duplicates(),
        others.no_duplicates(),
        names.to_set() == others.to_set(),
    ensures
        names.len() == others.len(),
{
    names.unique_seq_to_set();
    others.unique_seq_to_set();
}

} // verus!
