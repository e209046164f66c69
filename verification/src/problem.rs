//! Provides a problem type that defines constraints and subsets.
//!
//! Items and subsets are named by numbers. The order of the subsets and of
//! the items is the order of insertion, and may affect the order of the
//! solutions.

use vstd::prelude::*;
use indexmap::IndexMap;

verus! {

/// `indexmap::IndexMap`: a hash map that keeps its entries in the order of
/// insertion. Nothing is known of a map but what the functions below say.
#[verifier::external_type_specification]
#[verifier::external_body]
#[verifier::reject_recursive_types(K)]
#[verifier::reject_recursive_types(V)]
#[verifier::reject_recursive_types(S)]
pub struct ExIndexMap<K, V, S>(IndexMap<K, V, S>);

/// Where `key` stands among the keys of `entries`, the first time, or -1.
pub open spec fn key_index<V>(entries: Seq<(u64, V)>, key: u64) -> int
    decreases entries.len(),
{
    if entries.len() == 0 {
        -1
    } else {
        let i = key_index(entries.drop_last(), key);
        if i >= 0 {
            i
        } else if entries.last().0 == key {
            entries.len() - 1
        } else {
            -1
        }
    }
}

/// The entries after `value` is put under `key`: in the place of the entry
/// that has the key, or else behind the others.
pub open spec fn put<V>(entries: Seq<(u64, V)>, key: u64, value: V) -> Seq<(u64, V)> {
    if key_index(entries, key) >= 0 {
        entries.update(key_index(entries, key), (key, value))
    } else {
        entries.push((key, value))
    }
}

/// No key comes twice.
pub open spec fn unique_keys<V>(entries: Seq<(u64, V)>) -> bool {
    forall|i: int, j: int| 0 <= i < j < entries.len() ==> (#[trigger] entries[i]).0 != (#[trigger] entries[j]).0
}

/// What `key_index` finds.
pub proof fn lemma_key_index<V>(entries: Seq<(u64, V)>, key: u64)
    ensures
        -1 <= key_index(entries, key) < entries.len(),
        key_index(entries, key) >= 0 ==> entries[key_index(entries, key)].0 == key,
        forall|i: int| 0 <= i < entries.len() && (#[trigger] entries[i]).0 == key ==> 0 <= key_index(entries, key) <= i,
    decreases entries.len(),
{
    if entries.len() > 0 {
        lemma_key_index(entries.drop_last(), key);
        assert forall|i: int| 0 <= i < entries.len() && (#[trigger] entries[i]).0 == key implies 0 <= key_index(
            entries,
            key,
        ) <= i by {
            if i < entries.len() - 1 {
                assert(entries.drop_last()[i] == entries[i]);
            }
        }
    }
}

/// Putting a value keeps the keys unique.
pub proof fn lemma_put<V>(entries: Seq<(u64, V)>, key: u64, value: V)
    requires
        unique_keys(entries),
    ensures
        unique_keys(put(entries, key, value)),
        key_index(put(entries, key, value), key) >= 0,
{
    lemma_key_index(entries, key);
    let after = put(entries, key, value);
    let at = if key_index(entries, key) >= 0 {
        key_index(entries, key)
    } else {
        entries.len() as int
    };
    assert(after[at].0 == key);
    lemma_key_index(after, key);
    assert forall|i: int, j: int| 0 <= i < j < after.len() implies (#[trigger] after[i]).0 != (#[trigger] after[j]).0 by {
        if i < entries.len() && i != at {
            assert(after[i] == entries[i]);
        }
        if j < entries.len() && j != at {
            assert(after[j] == entries[j]);
        }
    }
}

/// The entries of a map of constraints, in the order of insertion: the item
/// and its range.
pub uninterp spec fn item_entries(map: IndexMap<u64, (usize, usize)>) -> Seq<(u64, (usize, usize))>;

/// The entries of a map of subsets, in the order of insertion: the name and
/// the items.
pub uninterp spec fn subset_entries(map: IndexMap<u64, Vec<u64>>) -> Seq<(u64, Seq<u64>)>;

/// `IndexMap::new`: a map without entries.
#[verifier::external_body]
fn items_new() -> (map: IndexMap<u64, (usize, usize)>)
    ensures
        item_entries(map) == Seq::<(u64, (usize, usize))>::empty(),
{
    IndexMap::new()
}

/// `IndexMap::insert`: where the key is in the map, the key keeps its place
/// and gets the value; where it is not, the pair becomes the last entry.
#[verifier::external_body]
fn items_insert(map: &mut IndexMap<u64, (usize, usize)>, key: u64, value: (usize, usize))
    ensures
        item_entries(*final(map)) == put(item_entries(*old(map)), key, value),
{
    map.insert(key, value);
}

/// `IndexMap::len`: the number of entries.
#[verifier::external_body]
fn items_len(map: &IndexMap<u64, (usize, usize)>) -> (n: usize)
    ensures
        n == item_entries(*map).len(),
{
    map.len()
}

/// `IndexMap::get_index_of`: the place of the entry that has the key, if
/// there is one.
#[verifier::external_body]
fn items_get_index_of(map: &IndexMap<u64, (usize, usize)>, key: u64) -> (at: Option<usize>)
    ensures
        match at {
            Some(i) => i == key_index(item_entries(*map), key),
            None => key_index(item_entries(*map), key) < 0,
        },
{
    map.get_index_of(&key)
}

/// `IndexMap::get_index`: the entry at a place, if the place is within the
/// map.
#[verifier::external_body]
fn items_get_index(map: &IndexMap<u64, (usize, usize)>, index: usize) -> (entry: Option<(u64, (usize, usize))>)
    ensures
        match entry {
            Some(e) => index < item_entries(*map).len() && e == item_entries(*map)[index as int],
            None => index >= item_entries(*map).len(),
        },
{
    map.get_index(index).map(|(k, v)| (*k, *v))
}

/// `IndexMap::new`: a map without entries.
#[verifier::external_body]
fn subsets_new() -> (map: IndexMap<u64, Vec<u64>>)
    ensures
        subset_entries(map) == Seq::<(u64, Seq<u64>)>::empty(),
{
    IndexMap::new()
}

/// `IndexMap::insert`: where the key is in the map, the key keeps its place
/// and gets the value; where it is not, the pair becomes the last entry.
#[verifier::external_body]
fn subsets_insert(map: &mut IndexMap<u64, Vec<u64>>, key: u64, value: Vec<u64>)
    ensures
        subset_entries(*final(map)) == put(subset_entries(*old(map)), key, value@),
{
    map.insert(key, value);
}

/// `IndexMap::len`: the number of entries.
#[verifier::external_body]
fn subsets_len(map: &IndexMap<u64, Vec<u64>>) -> (n: usize)
    ensures
        n == subset_entries(*map).len(),
{
    map.len()
}

/// `IndexMap::get_index`: the entry at a place, if the place is within the
/// map.
#[verifier::external_body]
fn subsets_get_index(map: &IndexMap<u64, Vec<u64>>, index: usize) -> (entry: Option<(u64, &Vec<u64>)>)
    ensures
        match entry {
            Some(e) => index < subset_entries(*map).len() && e.0 == subset_entries(*map)[index as int].0 && e.1@
                == subset_entries(*map)[index as int].1,
            None => index >= subset_entries(*map).len(),
        },
{
    map.get_index(index).map(|(k, v)| (*k, v))
}

/// Base trait for subset names and set elements: what a problem over any
/// kind of names and elements asks of them before it numbers them.
pub trait Value: Clone + core::hash::Hash + Eq {

}

impl<T: Clone + core::hash::Hash + Eq> Value for T {

}

/// What can be wrong with a problem.
#[derive(Clone, Copy, Debug, PartialEq, Eq, Structural)]
pub enum ProblemError {
    /// A subset names an item that the problem does not have.
    InvalidItemRef,
    /// The greatest multiplicity of an item is less than the least.
    InvalidMultiplicity,
    /// A subset names an item twice.
    DuplicateItem,
}

/// The content of a problem.
pub struct ProblemView {
    /// The items in the order of insertion, each with its least and its
    /// greatest multiplicity.
    pub items: Seq<(u64, (usize, usize))>,
    /// The subsets in the order of insertion, each with its name and its
    /// items.
    pub subsets: Seq<(u64, Seq<u64>)>,
}

impl ProblemView {
    /// No item and no subset comes twice, and no item asks for more than
    /// it allows.
    pub open spec fn wf(self) -> bool {
        &&& unique_keys(self.items)
        &&& unique_keys(self.subsets)
        &&& forall|i: int| 0 <= i < self.items.len() ==> (#[trigger] self.items[i]).1.0 <= self.items[i].1.1
    }
}

/// An exact cover problem instance.
///
/// The set elements form constraints together with a multiplicity range.
/// The subsets are identified by names.
pub struct Problem {
    constraints: IndexMap<u64, (usize, usize)>,
    subsets: IndexMap<u64, Vec<u64>>,
}

impl View for Problem {
    type V = ProblemView;

    closed spec fn view(&self) -> ProblemView {
        ProblemView { items: item_entries(self.constraints), subsets: subset_entries(self.subsets) }
    }
}

impl Default for Problem {
    /// The problem without items and subsets.
    fn default() -> (problem: Problem)
        ensures
            problem@.wf(),
            problem@.items.len() == 0,
            problem@.subsets.len() == 0,
    {
        Problem { constraints: items_new(), subsets: subsets_new() }
    }
}

impl Problem {
    /// Returns a reference to the constraints of the problem.
    pub fn constraints(&self) -> (map: &IndexMap<u64, (usize, usize)>)
        ensures
            item_entries(*map) == self@.items,
    {
        &self.constraints
    }

    /// Returns a reference to the subsets of the problem.
    pub fn subsets(&self) -> (map: &IndexMap<u64, Vec<u64>>)
        ensures
            subset_entries(*map) == self@.subsets,
    {
        &self.subsets
    }

    /// Number of constraints.
    pub fn constraint_count(&self) -> (n: usize)
        ensures
            n == self@.items.len(),
    {
        items_len(&self.constraints)
    }

    /// Number of subsets.
    pub fn subset_count(&self) -> (n: usize)
        ensures
            n == self@.subsets.len(),
    {
        subsets_len(&self.subsets)
    }

    /// The constraint at a place: the item and its range.
    pub fn constraint_at(&self, index: usize) -> (entry: Option<(u64, (usize, usize))>)
        ensures
            match entry {
                Some(e) => index < self@.items.len() && e == self@.items[index as int],
                None => index >= self@.items.len(),
            },
    {
        items_get_index(&self.constraints, index)
    }

    /// The subset at a place: its name and its items.
    pub fn subset_at(&self, index: usize) -> (entry: Option<(u64, &Vec<u64>)>)
        ensures
            match entry {
                Some(e) => index < self@.subsets.len() && e.0 == self@.subsets[index as int].0 && e.1@
                    == self@.subsets[index as int].1,
                None => index >= self@.subsets.len(),
            },
    {
        subsets_get_index(&self.subsets, index)
    }

    /// The place of an item among the constraints.
    pub fn constraint_index(&self, elem: u64) -> (at: Option<usize>)
        ensures
            match at {
                Some(i) => i == key_index(self@.items, elem),
                None => key_index(self@.items, elem) < 0,
            },
    {
        items_get_index_of(&self.constraints, elem)
    }

    /// Adds a subset to the problem.
    ///
    /// If the subset name already exists, it replaces the corresponding
    /// subset.
    pub fn add_subset(&mut self, name: u64, subset: Vec<u64>)
        ensures
            old(self)@.wf() ==> final(self)@.wf(),
            final(self)@.items == old(self)@.items,
            final(self)@.subsets == put(old(self)@.subsets, name, subset@),
    {
        proof {
            if self@.wf() {
                lemma_put(self@.subsets, name, subset@);
            }
        }
        subsets_insert(&mut self.subsets, name, subset);
    }

    /// Adds a constraint with a multiplicity range. A range whose greatest
    /// multiplicity is less than its least is refused.
    pub fn add_constraint(&mut self, elem: u64, min: usize, max: usize) -> (res: Result<(), ProblemError>)
        ensures
            old(self)@.wf() ==> final(self)@.wf(),
            final(self)@.subsets == old(self)@.subsets,
            max < min ==> res == Err::<(), ProblemError>(ProblemError::InvalidMultiplicity) && final(self)@.items
                == old(self)@.items,
            min <= max ==> res == Ok::<(), ProblemError>(()) && final(self)@.items == put(
                old(self)@.items,
                elem,
                (min, max),
            ),
    {
        if max < min {
            return Err(ProblemError::InvalidMultiplicity);
        }
        proof {
            if self@.wf() {
                lemma_put(self@.items, elem, (min, max));
            }
            lemma_key_index(self@.items, elem);
        }
        items_insert(&mut self.constraints, elem, (min, max));
        Ok(())
    }

    /// Adds a constraint that has to be covered exactly once.
    pub fn add_exact_constraint(&mut self, elem: u64)
        ensures
            old(self)@.wf() ==> final(self)@.wf(),
            final(self)@.subsets == old(self)@.subsets,
            final(self)@.items == put(old(self)@.items, elem, (1usize, 1usize)),
    {
        proof {
            if self@.wf() {
                lemma_put(self@.items, elem, (1usize, 1usize));
            }
            lemma_key_index(self@.items, elem);
        }
        items_insert(&mut self.constraints, elem, (1, 1));
    }

    /// Adds several exact constraints.
    pub fn add_exact_constraints(&mut self, constraints: Vec<u64>)
        ensures
            old(self)@.wf() ==> final(self)@.wf(),
            final(self)@.subsets == old(self)@.subsets,
            final(self)@.items == put_all(old(self)@.items, constraints@),
    {
        let mut i: usize = 0;
        while i < constraints.len()
            invariant
                0 <= i <= constraints@.len(),
                old(self)@.wf() ==> self@.wf(),
                self@.subsets == old(self)@.subsets,
                self@.items == put_all(old(self)@.items, constraints@.take(i as int)),
            decreases constraints@.len() - i,
        {
            proof {
                assert(constraints@.take(i as int + 1).drop_last() =~= constraints@.take(i as int));
            }
            self.add_exact_constraint(constraints[i]);
            i += 1;
        }
        proof {
            assert(constraints@.take(i as int) =~= constraints@);
        }
    }
}

/// The entries after each of `keys`, first to last, is put with the range
/// from one to one.
pub open spec fn put_all(entries: Seq<(u64, (usize, usize))>, keys: Seq<u64>) -> Seq<(u64, (usize, usize))>
    decreases keys.len(),
{
    if keys.len() == 0 {
        entries
    } else {
        put(put_all(entries, keys.drop_last()), keys.last(), (1usize, 1usize))
    }
}

} // verus!
