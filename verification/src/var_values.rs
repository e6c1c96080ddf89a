//! The assignment of truth values to the variables of a formula, and the
//! walk through all of them.

use vstd::prelude::*;
use indexmap::map::IndexMap;

verus! {

/// `indexmap::IndexMap`, a hash map that keeps its entries in the order
/// in which they were inserted.
#[verifier::external_type_specification]
#[verifier::external_body]
#[verifier::reject_recursive_types(K)]
#[verifier::reject_recursive_types(V)]
#[verifier::reject_recursive_types(S)]
pub struct ExIndexMap<K, V, S>(IndexMap<K, V, S>);

/// A variable's name and its truth value.
pub type Binding = (Seq<char>, bool);

/// The entries of an `IndexMap`, in the map's order: the order in which
/// the keys were first inserted.
pub uninterp spec fn entries(map: IndexMap<String, bool>) -> Seq<Binding>;

/// `IndexMap::new`: a map without entries.
#[verifier::external_body]
fn map_new() -> (map: IndexMap<String, bool>)
    ensures
        entries(map) == Seq::<Binding>::empty(),
{
    IndexMap::new()
}

/// `IndexMap::len`: the number of entries.
#[verifier::external_body]
fn map_len(map: &IndexMap<String, bool>) -> (n: usize)
    ensures
        n == entries(*map).len(),
{
    map.len()
}

/// `IndexMap::entry` and `Entry::or_insert`: where the map has no entry
/// for `key`, one with `value` is added behind the others; where it has
/// one, the map stays as it is.
#[verifier::external_body]
fn map_or_insert(map: &mut IndexMap<String, bool>, key: String, value: bool)
    ensures
        binds(entries(*old(map)), key@) ==> entries(*final(map)) == entries(*old(map)),
        !binds(entries(*old(map)), key@) ==> entries(*final(map)) == entries(*old(map)).push(
            (key@, value),
        ),
{
    map.entry(key).or_insert(value);
}

/// `IndexMap::get`: the value of an entry for `key`, or `None` where the
/// map has no such entry.
#[verifier::external_body]
fn map_get(map: &IndexMap<String, bool>, key: &str) -> (value: Option<bool>)
    ensures
        match value {
            Some(v) => entries(*map).contains((key@, v)),
            None => !binds(entries(*map), key@),
        },
{
    map.get(key).copied()
}

/// `IndexMap::keys`: the keys of the entries, in the map's order.
#[verifier::external_body]
fn map_keys(map: &IndexMap<String, bool>) -> (keys: Vec<String>)
    ensures
        keys.deep_view() == names_of(entries(*map)),
{
    map.keys().cloned().collect()
}

/// Indexing an `IndexMap` by position (`Index<usize>`): the value of the
/// entry at `index`, which lies within the map.
#[verifier::external_body]
fn map_value_at(map: &IndexMap<String, bool>, index: usize) -> (value: bool)
    requires
        index < entries(*map).len(),
    ensures
        value == entries(*map)[index as int].1,
{
    map[index]
}

/// Assigning to an `IndexMap` by position (`IndexMut<usize>`): the entry
/// at `index`, which lies within the map, gets the value `value`; its key
/// and the other entries stay.
#[verifier::external_body]
fn map_set_value_at(map: &mut IndexMap<String, bool>, index: usize, value: bool)
    requires
        index < entries(*old(map)).len(),
    ensures
        entries(*final(map)) == entries(*old(map)).update(
            index as int,
            (entries(*old(map))[index as int].0, value),
        ),
{
    map[index] = value;
}

/// Whether `a` binds `name`.
pub open spec fn binds(a: Seq<Binding>, name: Seq<char>) -> bool {
    exists|i: int| 0 <= i < a.len() && (#[trigger] a[i]).0 == name
}

/// The names that `a` binds, in order.
pub open spec fn names_of(a: Seq<Binding>) -> Seq<Seq<char>> {
    Seq::new(a.len(), |i: int| a[i].0)
}

/// The truth values of `a`, in the order of its names.
pub open spec fn values_of(a: Seq<Binding>) -> Seq<bool> {
    Seq::new(a.len(), |i: int| a[i].1)
}

/// No name is bound twice.
pub open spec fn distinct(a: Seq<Binding>) -> bool {
    forall|i: int, j: int|
        0 <= i < a.len() && 0 <= j < a.len() && i != j ==> (#[trigger] a[i]).0 != (#[trigger] a[j]).0
}

/// The truth value that `a` gives to `name`.
pub open spec fn value_of(a: Seq<Binding>, name: Seq<char>) -> bool {
    a[choose|i: int| 0 <= i < a.len() && (#[trigger] a[i]).0 == name].1
}

/// The assignment that binds each of `names` to `true`, in the order in
/// which they first occur.
pub open spec fn all_true(names: Seq<Seq<char>>) -> Seq<Binding>
    decreases names.len(),
{
    if names.len() == 0 {
        Seq::empty()
    } else {
        let before = all_true(names.drop_last());
        if binds(before, names.last()) {
            before
        } else {
            before.push((names.last(), true))
        }
    }
}

/// The variables of a formula with their current truth values, in the
/// order in which the variables first occur.
pub struct VarValues {
    map: IndexMap<String, bool>,
}

impl View for VarValues {
    type V = Seq<Binding>;

    closed spec fn view(&self) -> Seq<Binding> {
        entries(self.map)
    }
}

impl VarValues {
    /// The invariant of the type: no variable occurs twice.
    pub open spec fn well_formed(&self) -> bool {
        distinct(self@)
    }

    /// Binds each of `names` to `true`. A name that occurs again is
    /// skipped.
    pub fn new(names: &[String]) -> (var_values: Self)
        ensures
            var_values@ == all_true(names.deep_view()),
            var_values.well_formed(),
    {
        let mut map = map_new();
        let mut i: usize = 0;
        while i < names.len()
            invariant
                i <= names.len(),
                entries(map) == all_true(names.deep_view().take(i as int)),
                distinct(entries(map)),
            decreases names.len() - i,
        {
            assert(names.deep_view().take(i + 1).drop_last() =~= names.deep_view().take(i as int));
            map_or_insert(&mut map, names[i].clone(), true);
            i += 1;
        }
        assert(names.deep_view().take(i as int) =~= names.deep_view());
        VarValues { map }
    }

    /// The truth value of the variable `name`.
    pub fn get_value(&self, name: &str) -> (value: bool)
        requires
            self.well_formed(),
            binds(self@, name@),
        ensures
            value == value_of(self@, name@),
    {
        map_get(&self.map, name).unwrap()
    }

    /// The names of the variables, in the order in which they first occur.
    pub fn names(&self) -> (names: Vec<String>)
        ensures
            names.deep_view() == names_of(self@),
    {
        map_keys(&self.map)
    }

    /// The truth values of the variables, in the order of their names.
    pub fn values(&self) -> (values: Vec<bool>)
        ensures
            values@ == values_of(self@),
    {
        let n = map_len(&self.map);
        let mut values: Vec<bool> = Vec::new();
        let mut i: usize = 0;
        while i < n
            invariant
                i <= n == self@.len(),
                values@ == values_of(self@).take(i as int),
            decreases n - i,
        {
            values.push(map_value_at(&self.map, i));
            i += 1;
        }
        values
    }

    /// Steps to the next combination of truth values: from the last
    /// variable towards the first, each value is flipped, up to and with
    /// the first one that was `true`. Returns whether there was such a
    /// value; where there was none, every value is `true` again and the walk
    /// through the combinations is at its end.
    pub fn advance(&mut self) -> (more: bool)
        requires
            old(self)@.len() > 0,
        ensures
            final(self)@.len() == old(self)@.len(),
            names_of(final(self)@) == names_of(old(self)@),
            values_of(final(self)@) == successor(values_of(old(self)@)),
            more == some_true(values_of(old(self)@)),
            old(self).well_formed() ==> final(self).well_formed(),
    {
        let ghost before = self@;
        let mut i = map_len(&self.map);
        while i > 0
            invariant
                i <= before.len() == self@.len(),
                before == old(self)@,
                forall|j: int| 0 <= j < i ==> self@[j] == #[trigger] before[j],
                forall|j: int|
                    i <= j < before.len() ==> !(#[trigger] before[j]).1 && self@[j] == (
                        before[j].0,
                        true,
                    ),
            decreases i,
        {
            i -= 1;
            let value = map_value_at(&self.map, i);
            map_set_value_at(&mut self.map, i, !value);
            if value {
                proof {
                    assert(values_of(before)[i as int]);
                    lemma_last_true_is(values_of(before), i as int);
                    assert(names_of(self@) =~= names_of(before));
                    lemma_same_names(before, self@);
                }
                return true;
            }
        }
        proof {
            lemma_last_true_is(values_of(before), -1);
            assert(names_of(self@) =~= names_of(before));
            lemma_same_names(before, self@);
        }
        false
    }
}

/// The first assignment binds each of the names once, in the order in
/// which they first occur, to `true`.
pub proof fn lemma_all_true(names: Seq<Seq<char>>)
    ensures
        distinct(all_true(names)),
        forall|t: Seq<char>| names.contains(t) <==> binds(all_true(names), t),
        values_of(all_true(names)) == uniform(all_true(names).len(), true),
        names.no_duplicates() ==> names_of(all_true(names)) == names,
    decreases names.len(),
{
    if names.len() != 0 {
        let rest = names.drop_last();
        let last = names.last();
        let before = all_true(rest);
        let a = all_true(names);
        lemma_all_true(rest);
        assert forall|t: Seq<char>| names.contains(t) implies binds(a, t) by {
            let i = choose|i: int| 0 <= i < names.len() && names[i] == t;
            if i < rest.len() {
                assert(rest[i] == t);
                assert(rest.contains(t));
            }
            if binds(before, t) {
                let j = choose|j: int| 0 <= j < before.len() && (#[trigger] before[j]).0 == t;
                assert(a[j].0 == t);
            } else {
                assert(a[before.len() as int].0 == t);
            }
        }
        assert forall|t: Seq<char>| binds(a, t) implies names.contains(t) by {
            let j = choose|j: int| 0 <= j < a.len() && (#[trigger] a[j]).0 == t;
            if j < before.len() {
                assert(rest.contains(t));
            }
        }
        assert(values_of(a) =~= uniform(a.len(), true)) by {
            assert forall|i: int| 0 <= i < a.len() implies a[i].1 by {
                if i < before.len() {
                    assert(values_of(before)[i]);
                }
            }
        }
        if names.no_duplicates() {
            if binds(before, last) {
                assert(rest.contains(last));
            }
            assert(names_of(a) =~= names_of(before).push(last));
        }
    }
}

/// Two assignments with the same names bind the same variables.
pub proof fn lemma_same_names(a: Seq<Binding>, b: Seq<Binding>)
    requires
        names_of(a) == names_of(b),
    ensures
        a.len() == b.len(),
        forall|i: int| 0 <= i < a.len() ==> (#[trigger] a[i]).0 == b[i].0,
        distinct(a) == distinct(b),
        forall|name: Seq<char>| binds(a, name) == binds(b, name),
{
    assert(names_of(a).len() == a.len());
    assert forall|i: int| 0 <= i < a.len() implies (#[trigger] a[i]).0 == b[i].0 by {
        assert(names_of(a)[i] == names_of(b)[i]);
    }
    assert forall|i: int| 0 <= i < b.len() implies (#[trigger] b[i]).0 == a[i].0 by {}
}

/// `n` times the value `b`.
pub open spec fn uniform(n: nat, b: bool) -> Seq<bool> {
    Seq::new(n, |i: int| b)
}

/// Whether one of `values` is `true`.
pub open spec fn some_true(values: Seq<bool>) -> bool {
    exists|i: int| 0 <= i < values.len() && values[i]
}

/// The position of the last `true` among `values`, or -1 where all are
/// `false`.
pub open spec fn last_true(values: Seq<bool>) -> int
    decreases values.len(),
{
    if values.len() == 0 {
        -1
    } else if values.last() {
        values.len() - 1
    } else {
        last_true(values.drop_last())
    }
}

/// The combination that follows `values`: every value from the last `true`
/// on is flipped, and every value where there is no `true`.
pub open spec fn successor(values: Seq<bool>) -> Seq<bool> {
    Seq::new(
        values.len(),
        |i: int|
            if i < last_true(values) {
                values[i]
            } else {
                !values[i]
            },
    )
}

/// `last_true` is the greatest index of a `true`.
pub proof fn lemma_last_true(values: Seq<bool>)
    ensures
        -1 <= last_true(values) < values.len(),
        forall|j: int| last_true(values) < j < values.len() ==> !values[j],
        0 <= last_true(values) ==> values[last_true(values)],
    decreases values.len(),
{
    if values.len() != 0 && !values.last() {
        let rest = values.drop_last();
        lemma_last_true(rest);
        assert forall|j: int| last_true(values) < j < values.len() implies !values[j] by {
            if j < values.len() - 1 {
                assert(values[j] == rest[j]);
            }
        }
    }
}

/// The greatest index of a `true` is `last_true`.
pub proof fn lemma_last_true_is(values: Seq<bool>, i: int)
    requires
        -1 <= i < values.len(),
        forall|j: int| i < j < values.len() ==> !values[j],
        0 <= i ==> values[i],
    ensures
        last_true(values) == i,
{
    lemma_last_true(values);
}

} // verus!
