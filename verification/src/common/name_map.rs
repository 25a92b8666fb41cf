//! A map from names to values that keeps its entries in directory order.

use vstd::prelude::*;
use vstd::seq_lib::seq_to_set_is_finite;
use crate::common::names::{
    compare_names, lemma_name_before_asymmetric, lemma_name_before_total,
    lemma_name_before_transitive, name_before, NameOrder,
};

verus! {

/// Values of which a second handle can be made at no cost to the first.
pub trait Shared: Sized {
    /// Another handle on the same value.
    fn share(&self) -> (other: Self)
        ensures
            other == *self,
    ;
}

/// Whether a sequence of names is in strict directory order.
pub open spec fn in_order(names: Seq<Seq<char>>) -> bool {
    forall|i: int, j: int|
        0 <= i < j < names.len() ==> name_before(#[trigger] names[i], #[trigger] names[j])
}

/// The map that pairs `names[i]` with `values[i]`.
pub open spec fn pairing<V>(names: Seq<Seq<char>>, values: Seq<V>) -> Map<Seq<char>, V> {
    Map::new(|k: Seq<char>| names.contains(k), |k: Seq<char>| values[names.index_of(k)])
}

/// In an ordered sequence a name stands at one position only.
pub proof fn lemma_in_order_unique(names: Seq<Seq<char>>, i: int, j: int)
    requires
        in_order(names),
        0 <= i < names.len(),
        0 <= j < names.len(),
        names[i] == names[j],
    ensures
        i == j,
{
    if i < j {
        lemma_name_before_asymmetric(names[i], names[j]);
    } else if j < i {
        lemma_name_before_asymmetric(names[j], names[i]);
    }
}

/// What an ordered pairing holds at each of its positions.
pub proof fn lemma_pairing_at<V>(names: Seq<Seq<char>>, values: Seq<V>, i: int)
    requires
        in_order(names),
        names.len() == values.len(),
        0 <= i < names.len(),
    ensures
        pairing(names, values).contains_key(names[i]),
        pairing(names, values)[names[i]] == values[i],
{
    lemma_in_order_unique(names, i, names.index_of(names[i]));
}

/// Putting a name that is not yet there at the place the order gives it.
pub proof fn lemma_pairing_insert<V>(
    names: Seq<Seq<char>>,
    values: Seq<V>,
    at: int,
    name: Seq<char>,
    value: V,
)
    requires
        in_order(names),
        names.len() == values.len(),
        0 <= at <= names.len(),
        forall|i: int| 0 <= i < at ==> name_before(#[trigger] names[i], name),
        forall|i: int| at <= i < names.len() ==> name_before(name, #[trigger] names[i]),
    ensures
        in_order(names.insert(at, name)),
        pairing(names.insert(at, name), values.insert(at, value)) == pairing(names, values).insert(
            name,
            value,
        ),
{
    let names2 = names.insert(at, name);
    let values2 = values.insert(at, value);
    assert(in_order(names2)) by {
        assert forall|i: int, j: int| 0 <= i < j < names2.len() implies name_before(
            #[trigger] names2[i],
            #[trigger] names2[j],
        ) by {
        }
    }
    let left = pairing(names2, values2);
    let right = pairing(names, values).insert(name, value);
    assert forall|k: Seq<char>| left.contains_key(k) <==> right.contains_key(k) by {
        if names2.contains(k) {
            let j = names2.index_of(k);
        }
        if names.contains(k) {
            let j = names.index_of(k);
            if j < at {
                assert(names2[j] == k);
            } else {
                assert(names2[j + 1] == k);
            }
        }
        if k == name {
            assert(names2[at] == k);
        }
    }
    assert forall|k: Seq<char>| left.contains_key(k) implies left[k] == right[k] by {
        let j = names2.index_of(k);
        if j == at {
        } else if j < at {
            lemma_name_before_asymmetric(names[j], name);
            lemma_pairing_at(names, values, j);
        } else {
            lemma_name_before_asymmetric(name, names[j - 1]);
            lemma_pairing_at(names, values, j - 1);
        }
    }
}

/// Giving a name that is there a new value.
pub proof fn lemma_pairing_update<V>(names: Seq<Seq<char>>, values: Seq<V>, at: int, value: V)
    requires
        in_order(names),
        names.len() == values.len(),
        0 <= at < names.len(),
    ensures
        pairing(names, values.update(at, value)) == pairing(names, values).insert(names[at], value),
{
    let values2 = values.update(at, value);
    let left = pairing(names, values2);
    let right = pairing(names, values).insert(names[at], value);
    assert forall|k: Seq<char>| left.contains_key(k) <==> right.contains_key(k) by {
    }
    assert forall|k: Seq<char>| left.contains_key(k) implies left[k] == right[k] by {
        let j = names.index_of(k);
        if j != at && k == names[at] {
            lemma_in_order_unique(names, j, at);
        }
    }
}

/// Taking a name out.
pub proof fn lemma_pairing_remove<V>(names: Seq<Seq<char>>, values: Seq<V>, at: int)
    requires
        in_order(names),
        names.len() == values.len(),
        0 <= at < names.len(),
    ensures
        in_order(names.remove(at)),
        pairing(names.remove(at), values.remove(at)) == pairing(names, values).remove(names[at]),
{
    let names2 = names.remove(at);
    let values2 = values.remove(at);
    assert(in_order(names2)) by {
        assert forall|i: int, j: int| 0 <= i < j < names2.len() implies name_before(
            #[trigger] names2[i],
            #[trigger] names2[j],
        ) by {
            let j0 = if j < at { j } else { j + 1 };
        }
    }
    let left = pairing(names2, values2);
    let right = pairing(names, values).remove(names[at]);
    assert forall|k: Seq<char>| left.contains_key(k) <==> right.contains_key(k) by {
        if names2.contains(k) {
            let j = names2.index_of(k);
            let j0 = if j < at { j } else { j + 1 };
            if k == names[at] {
                lemma_in_order_unique(names, j0, at);
            }
        }
        if names.contains(k) && k != names[at] {
            let j = names.index_of(k);
            if j < at {
                assert(names2[j] == k);
            } else {
                assert(names2[j - 1] == k);
            }
        }
    }
    assert forall|k: Seq<char>| left.contains_key(k) implies left[k] == right[k] by {
        let j = names2.index_of(k);
        let j0 = if j < at { j } else { j + 1 };
        lemma_pairing_at(names, values, j0);
    }
}

/// The keys of an ordered pairing are its names, each once.
pub proof fn lemma_ordered_keys<V>(names: Seq<Seq<char>>, values: Seq<V>)
    requires
        in_order(names),
        names.len() == values.len(),
    ensures
        pairing(names, values).dom().finite(),
        pairing(names, values).dom().len() == names.len(),
        forall|i: int|
            0 <= i < names.len() ==> pairing(names, values).contains_key(#[trigger] names[i])
                && pairing(names, values)[names[i]] == values[i],
{
    assert(pairing(names, values).dom() =~= names.to_set());
    seq_to_set_is_finite(names);
    assert(names.no_duplicates()) by {
        assert forall|i: int, j: int|
            0 <= i < names.len() && 0 <= j < names.len() && i != j implies names[i] != names[j] by {
            if names[i] == names[j] {
                lemma_in_order_unique(names, i, j);
            }
        }
    }
    names.unique_seq_to_set();
    assert forall|i: int| 0 <= i < names.len() implies pairing(names, values).contains_key(
        #[trigger] names[i],
    ) && pairing(names, values)[names[i]] == values[i] by {
        lemma_pairing_at(names, values, i);
    }
}

/// A map from names to values, its entries kept in directory order.
#[derive(Debug, PartialEq, Eq)]
pub struct NameMap<V> {
    items: Vec<(String, V)>,
}

impl<V> NameMap<V> {
    /// The entries stand in strict directory order, so no name occurs twice.
    #[verifier::type_invariant]
    pub open spec fn wf(&self) -> bool {
        in_order(self.names())
    }

    /// The names, in directory order.
    pub closed spec fn names(&self) -> Seq<Seq<char>> {
        Seq::new(self.items@.len(), |i: int| self.items@[i].0@)
    }

    /// The values, each at the position of its name.
    pub closed spec fn values(&self) -> Seq<V> {
        Seq::new(self.items@.len(), |i: int| self.items@[i].1)
    }

    /// The map as a mathematical map.
    pub open spec fn view(&self) -> Map<Seq<char>, V> {
        pairing(self.names(), self.values())
    }

    /// Names and values come in pairs.
    pub proof fn lemma_same_length(&self)
        ensures
            self.names().len() == self.values().len(),
    {
    }

    /// The names of a map come in ascending order, each once: there are as
    /// many of them as the map has keys, and each stands with its value.
    pub proof fn lemma_names(&self)
        requires
            self.wf(),
        ensures
            in_order(self.names()),
            self.names().len() == self.values().len(),
            self@.dom().finite(),
            self@.dom().len() == self.names().len(),
            forall|i: int|
                0 <= i < self.names().len() ==> self@.contains_key(#[trigger] self.names()[i])
                    && self@[self.names()[i]] == self.values()[i],
    {
        lemma_ordered_keys(self.names(), self.values());
    }

    /// A map without entries.
    pub fn new() -> (map: Self)
        ensures
            map.names() == Seq::<Seq<char>>::empty(),
            map.values() == Seq::<V>::empty(),
            map@ == Map::<Seq<char>, V>::empty(),
    {
        let map = NameMap { items: Vec::new() };
        map
    }

    /// The number of entries.
    pub fn len(&self) -> (n: usize)
        ensures
            n == self.names().len(),
            n == self.values().len(),
            self@.dom().finite(),
            n == self@.dom().len(),
    {
        proof {
            use_type_invariant(self);
            lemma_ordered_keys(self.names(), self.values());
        }
        self.items.len()
    }

    /// The name at a position of the directory order.
    pub fn name_at(&self, i: usize) -> (name: &String)
        requires
            i < self.names().len(),
        ensures
            name@ == self.names()[i as int],
    {
        &self.items[i].0
    }

    /// The value at a position of the directory order.
    pub fn value_at(&self, i: usize) -> (value: &V)
        requires
            i < self.values().len(),
        ensures
            *value == self.values()[i as int],
    {
        &self.items[i].1
    }

    /// The first position whose name does not come before `name`.
    fn position(&self, name: &str) -> (at: (usize, bool))
        ensures
            at.0 <= self.names().len(),
            forall|i: int| 0 <= i < at.0 ==> name_before(#[trigger] self.names()[i], name@),
            at.1 ==> at.0 < self.names().len() && self.names()[at.0 as int] == name@,
            !at.1 ==> forall|i: int|
                at.0 <= i < self.names().len() ==> name_before(name@, #[trigger] self.names()[i]),
            at.1 <==> self@.contains_key(name@),
    {
        proof {
            use_type_invariant(self);
        }
        let mut i: usize = 0;
        while i < self.items.len()
            invariant
                i <= self.items@.len(),
                self.wf(),
                forall|j: int| 0 <= j < i ==> name_before(#[trigger] self.names()[j], name@),
            decreases self.items@.len() - i,
        {
            let order = compare_names(self.items[i].0.as_str(), name);
            match order {
                NameOrder::Before => {},
                NameOrder::Same => {
                    return (i, true);
                },
                NameOrder::After => {
                    proof {
                        assert forall|j: int| i <= j < self.names().len() implies name_before(
                            name@,
                            #[trigger] self.names()[j],
                        ) by {
                            if j > i {
                                lemma_name_before_transitive(
                                    name@,
                                    self.names()[i as int],
                                    self.names()[j],
                                );
                            }
                        }
                        if self.names().contains(name@) {
                            let j = self.names().index_of(name@);
                            if j < i {
                                lemma_name_before_asymmetric(self.names()[j], name@);
                            } else {
                                lemma_name_before_asymmetric(name@, self.names()[j]);
                            }
                        }
                    }
                    return (i, false);
                },
            }
            i = i + 1;
        }
        proof {
            if self.names().contains(name@) {
                let j = self.names().index_of(name@);
                lemma_name_before_asymmetric(self.names()[j], name@);
            }
        }
        (i, false)
    }

    /// Whether the map has an entry under `name`.
    pub fn contains_key(&self, name: &str) -> (found: bool)
        ensures
            found == self@.contains_key(name@),
    {
        self.position(name).1
    }

    /// The value under `name`, if the map has one.
    pub fn get(&self, name: &str) -> (value: Option<&V>)
        ensures
            match value {
                Some(v) => self@.contains_key(name@) && *v == self@[name@],
                None => !self@.contains_key(name@),
            },
    {
        let (at, found) = self.position(name);
        if found {
            proof {
                use_type_invariant(self);
                lemma_pairing_at(self.names(), self.values(), at as int);
            }
            Some(&self.items[at].1)
        } else {
            None
        }
    }

    /// Puts `value` under `name`, in place of what was there.
    pub fn insert(&mut self, name: String, value: V)
        ensures
            final(self)@ == old(self)@.insert(name@, value),
    {
        proof {
            use_type_invariant(&*self);
        }
        let (at, found) = self.position(name.as_str());
        let ghost names = self.names();
        let ghost values = self.values();
        let mut items: Vec<(String, V)> = Vec::new();
        core::mem::swap(&mut self.items, &mut items);
        if found {
            let _ = items.remove(at);
        }
        items.insert(at, (name, value));
        proof {
            let names2 = Seq::new(items@.len(), |i: int| items@[i].0@);
            if found {
                lemma_pairing_update(names, values, at as int, value);
                assert(names2 =~= names);
            } else {
                lemma_pairing_insert(names, values, at as int, name@, value);
                assert(names2 =~= names.insert(at as int, name@));
            }
        }
        core::mem::swap(&mut self.items, &mut items);
    }

    /// Takes the entry under `name` out and hands back its value.
    pub fn remove(&mut self, name: &str) -> (taken: Option<V>)
        ensures
            final(self)@ == old(self)@.remove(name@),
            taken == (if old(self)@.contains_key(name@) {
                Some(old(self)@[name@])
            } else {
                None
            }),
    {
        proof {
            use_type_invariant(&*self);
        }
        let (at, found) = self.position(name);
        let ghost names = self.names();
        let ghost values = self.values();
        if found {
            let mut items: Vec<(String, V)> = Vec::new();
            core::mem::swap(&mut self.items, &mut items);
            let entry = items.remove(at);
            proof {
                let names2 = Seq::new(items@.len(), |i: int| items@[i].0@);
                assert(names2 =~= names.remove(at as int));
                lemma_pairing_remove(names, values, at as int);
                lemma_pairing_at(names, values, at as int);
            }
            core::mem::swap(&mut self.items, &mut items);
            Some(entry.1)
        } else {
            None
        }
    }
}

impl<V: Shared> NameMap<V> {
    /// A map of its own with the same entries, each value shared with this one.
    pub fn duplicate(&self) -> (other: Self)
        ensures
            other.names() == self.names(),
            other.values() == self.values(),
            other@ == self@,
    {
        proof {
            use_type_invariant(self);
        }
        let mut items: Vec<(String, V)> = Vec::new();
        let mut i: usize = 0;
        while i < self.items.len()
            invariant
                i <= self.items@.len(),
                items@.len() == i,
                forall|j: int| 0 <= j < i ==> items@[j] == self.items@[j],
            decreases self.items@.len() - i,
        {
            let name = self.items[i].0.clone();
            let value = self.items[i].1.share();
            items.push((name, value));
            i = i + 1;
        }
        proof {
            assert(items@ =~= self.items@);
        }
        let other = NameMap { items };
        other
    }
}

} // verus!
