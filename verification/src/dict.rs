//! Mappings from names to values, as a request definition holds them.
//!
//! A `Dict` keeps its entries in the order in which their names were first
//! inserted. No name occurs twice. Its view is a `Map` from the name's text to
//! the value's deep view; the order is visible through `names`.

use vstd::prelude::*;
use vstd::string::*;

verus! {

/// Whether two strings hold the same text.
pub fn same_text(a: &str, b: &str) -> (r: bool)
    ensures
        r == (a@ == b@),
{
    let x = a.to_owned();
    let y = b.to_owned();
    x == y
}

/// Values that can be compared by what they hold.
pub trait SameValue: DeepView + Sized {
    /// Whether the two values hold the same.
    fn same_value(&self, other: &Self) -> (r: bool)
        ensures
            r == (self.deep_view() == other.deep_view()),
    ;
}

impl SameValue for String {
    fn same_value(&self, other: &Self) -> (r: bool) {
        *self == *other
    }
}

impl SameValue for Option<String> {
    fn same_value(&self, other: &Self) -> (r: bool) {
        match (self, other) {
            (Some(a), Some(b)) => *a == *b,
            (None, None) => true,
            _ => false,
        }
    }
}

/// The names of `other` that are not in `have`, in the order of `other`.
pub open spec fn fresh_names(have: Set<Seq<char>>, other: Seq<Seq<char>>) -> Seq<Seq<char>>
    decreases other.len(),
{
    if other.len() == 0 {
        Seq::empty()
    } else {
        let rest = fresh_names(have, other.drop_last());
        if have.contains(other.last()) {
            rest
        } else {
            rest.push(other.last())
        }
    }
}

/// A finite mapping from names to values.
#[derive(Debug)]
pub struct Dict<V: DeepView> {
    entries: Vec<(String, V)>,
}

/// Header names with their values; a header may be present without a value.
pub type Headers = Dict<Option<String>>;

/// Query parameters.
pub type Params = Dict<String>;

impl<V: DeepView> View for Dict<V> {
    type V = Map<Seq<char>, V::V>;

    closed spec fn view(&self) -> Map<Seq<char>, V::V> {
        Map::new(
            |k: Seq<char>| self.names().contains(k),
            |k: Seq<char>| self.values()[self.names().index_of(k)],
        )
    }
}

impl<V: DeepView> Dict<V> {
    /// No name occurs twice.
    #[verifier::type_invariant]
    pub closed spec fn wf(self) -> bool {
        self.names().no_duplicates()
    }

    /// The names, in the order in which the entries are held.
    pub closed spec fn names(self) -> Seq<Seq<char>> {
        self.entries@.map_values(|e: (String, V)| e.0@)
    }

    /// The values, in the order in which the entries are held.
    pub closed spec fn values(self) -> Seq<V::V> {
        self.entries@.map_values(|e: (String, V)| e.1.deep_view())
    }

    /// How the view relates to `names` and `values`: the names are the keys,
    /// and each value stands under the name at the same index.
    pub proof fn lemma_entries(self)
        requires
            self.wf(),
        ensures
            self.names().len() == self.values().len(),
            self.names().no_duplicates(),
            self@.dom() == self.names().to_set(),
            self@.dom().finite(),
            self@.len() == self.names().len(),
            forall|i: int|
                0 <= i < self.names().len() ==> self@.contains_key(#[trigger] self.names()[i])
                    && self@[self.names()[i]] == self.values()[i],
    {
        let names = self.names();
        assert(self@.dom() =~= names.to_set());
        vstd::seq_lib::seq_to_set_is_finite(names);
        names.unique_seq_to_set();
        assert forall|i: int| 0 <= i < names.len() implies self@.contains_key(#[trigger] names[i])
            && self@[names[i]] == self.values()[i] by {
            assert(names.contains(names[i]));
            assert(names.index_of(names[i]) == i);
        }
    }

    /// A mapping without entries.
    pub fn new() -> (d: Self)
        ensures
            d@ == Map::<Seq<char>, V::V>::empty(),
            d.names() == Seq::<Seq<char>>::empty(),
    {
        let d = Dict { entries: Vec::new() };
        assert(d.names() =~= Seq::<Seq<char>>::empty());
        assert(d@ =~= Map::<Seq<char>, V::V>::empty());
        d
    }

    /// The number of entries.
    pub fn len(&self) -> (n: usize)
        ensures
            n == self@.len(),
            n == self.names().len(),
    {
        proof {
            use_type_invariant(self);
            self.lemma_entries();
        }
        self.entries.len()
    }

    /// Whether the mapping has no entries.
    pub fn is_empty(&self) -> (b: bool)
        ensures
            b == (self@.len() == 0),
    {
        self.len() == 0
    }

    /// The index at which `name` is held.
    fn position(&self, name: &str) -> (r: Option<usize>)
        ensures
            match r {
                Some(i) => i < self.names().len() && self.names()[i as int] == name@,
                None => !self.names().contains(name@),
            },
    {
        let mut i: usize = 0;
        while i < self.entries.len()
            invariant
                i <= self.entries.len(),
                forall|j: int| 0 <= j < i ==> self.names()[j] != name@,
            decreases self.entries.len() - i,
        {
            if same_text(self.entries[i].0.as_str(), name) {
                return Some(i);
            }
            i += 1;
        }
        None
    }

    /// Whether `name` has an entry.
    pub fn contains_key(&self, name: &str) -> (b: bool)
        ensures
            b == self@.contains_key(name@),
    {
        self.position(name).is_some()
    }

    /// The value held under `name`.
    pub fn get(&self, name: &str) -> (r: Option<&V>)
        ensures
            match r {
                Some(v) => self@.contains_key(name@) && v.deep_view() == self@[name@],
                None => !self@.contains_key(name@),
            },
    {
        proof {
            use_type_invariant(self);
            self.lemma_entries();
        }
        match self.position(name) {
            Some(i) => Some(&self.entries[i].1),
            None => None,
        }
    }

    /// The name of the entry at index `i`.
    pub fn name_at(&self, i: usize) -> (name: &String)
        requires
            i < self.names().len(),
        ensures
            name@ == self.names()[i as int],
    {
        &self.entries[i].0
    }

    /// The value of the entry at index `i`.
    pub fn value_at(&self, i: usize) -> (value: &V)
        requires
            i < self.names().len(),
        ensures
            value.deep_view() == self@[self.names()[i as int]],
    {
        proof {
            use_type_invariant(self);
            self.lemma_entries();
        }
        &self.entries[i].1
    }

    /// Puts `value` under `name`, in place of the value that `name` had, if
    /// it had one.
    pub fn insert(&mut self, name: String, value: V)
        ensures
            final(self)@ == old(self)@.insert(name@, value.deep_view()),
            final(self).names() == if old(self)@.contains_key(name@) {
                old(self).names()
            } else {
                old(self).names().push(name@)
            },
    {
        proof {
            use_type_invariant(&*self);
            self.lemma_entries();
        }
        let ghost before = *self;
        let ghost key = name@;
        let ghost val = value.deep_view();
        let found = self.position(name.as_str());
        let mut entries: Vec<(String, V)> = Vec::new();
        core::mem::swap(&mut self.entries, &mut entries);
        match found {
            Some(i) => {
                entries.set(i, (name, value));
            },
            None => {
                entries.push((name, value));
            },
        }
        proof {
            let names = entries@.map_values(|e: (String, V)| e.0@);
            if found is Some {
                assert(names =~= before.names());
            } else {
                assert(names =~= before.names().push(key));
            }
        }
        core::mem::swap(&mut self.entries, &mut entries);
        proof {
            if found is Some {
                assert(self.names() =~= before.names());
                assert(self.values() =~= before.values().update(found->0 as int, val));
            } else {
                assert(self.names() =~= before.names().push(key));
                assert(self.values() =~= before.values().push(val));
            }
        }
        proof {
            let after = *self;
            assert(after.wf());
            after.lemma_entries();
            assert forall|k: Seq<char>| after@.contains_key(k) implies before@.insert(
                key,
                val,
            ).contains_key(k) && after@[k] == before@.insert(key, val)[k] by {
                let j = choose|j: int| 0 <= j < after.names().len() && after.names()[j] == k;
                assert(after@[after.names()[j]] == after.values()[j]);
                if k != key {
                    assert(before.names()[j] == k);
                    assert(before@[before.names()[j]] == before.values()[j]);
                }
            }
            assert forall|k: Seq<char>|
                before@.insert(key, val).contains_key(k) implies after@.contains_key(k) by {
                if k != key {
                    let j = choose|j: int| 0 <= j < before.names().len() && before.names()[j] == k;
                    assert(after.names()[j] == k);
                } else if found is Some {
                    assert(after.names()[found->0 as int] == key);
                } else {
                    assert(after.names()[after.names().len() - 1] == key);
                }
            }
            assert(after@ =~= before@.insert(key, val));
        }
    }

    /// Puts `value` under `name` unless `name` has an entry already.
    pub fn insert_if_absent(&mut self, name: String, value: V)
        ensures
            final(self)@ == if old(self)@.contains_key(name@) {
                old(self)@
            } else {
                old(self)@.insert(name@, value.deep_view())
            },
            final(self).names() == if old(self)@.contains_key(name@) {
                old(self).names()
            } else {
                old(self).names().push(name@)
            },
    {
        if !self.contains_key(name.as_str()) {
            self.insert(name, value);
        }
    }

    /// Puts every entry of `other` into `self`, in the order of `other`.
    /// Where both hold a name, `other`'s value stays if `overwrite` is set,
    /// and that of `self` if not.
    fn merge(&mut self, other: Dict<V>, overwrite: bool)
        ensures
            final(self)@ == if overwrite {
                old(self)@.union_prefer_right(other@)
            } else {
                other@.union_prefer_right(old(self)@)
            },
            final(self).names() == old(self).names() + fresh_names(
                old(self)@.dom(),
                other.names(),
            ),
    {
        proof {
            use_type_invariant(&*self);
            use_type_invariant(&other);
            self.lemma_entries();
            other.lemma_entries();
        }
        let ghost before = *self;
        let ghost have = before@.dom();
        let ghost names = other.names();
        let ghost values = other.values();
        let entries = other.entries;
        assert(before.names() + fresh_names(have, names.subrange(0, 0)) =~= before.names());
        for entry in it: entries
            invariant
                it.seq() == entries@,
                names == entries@.map_values(|e: (String, V)| e.0@),
                values == entries@.map_values(|e: (String, V)| e.1.deep_view()),
                names.no_duplicates(),
                have == before@.dom(),
                self.names() == before.names() + fresh_names(
                    have,
                    names.subrange(0, it.index() as int),
                ),
                forall|k: Seq<char>|
                    #![trigger self@.contains_key(k)]
                    #![trigger before@.contains_key(k)]
                    self@.contains_key(k) <==> before@.contains_key(k) || names.subrange(
                        0,
                        it.index() as int,
                    ).contains(k),
                forall|k: Seq<char>|
                    #![trigger self@.contains_key(k)]
                    self@.contains_key(k) ==> self@[k] == if names.subrange(
                        0,
                        it.index() as int,
                    ).contains(k) && (overwrite || !before@.contains_key(k)) {
                        values[names.index_of(k)]
                    } else {
                        before@[k]
                    },
        {
            let ghost i = it.index() as int;
            let ghost done = names.subrange(0, i);
            let ghost next = names.subrange(0, i + 1);
            let ghost held = *self;
            let (name, value) = entry;
            proof {
                assert(name@ == names[i]);
                assert(value.deep_view() == values[i]);
                assert(next.drop_last() =~= done);
                assert(next.last() == names[i]);
                assert(!done.contains(names[i]));
                assert(names.contains(names[i]));
                assert(names.index_of(names[i]) == i);
                assert forall|k: Seq<char>| next.contains(k) <==> done.contains(k) || k
                    == names[i] by {
                    if done.contains(k) {
                        let j = choose|j: int| 0 <= j < done.len() && done[j] == k;
                        assert(next[j] == k);
                    }
                    if k == names[i] {
                        assert(next[i] == k);
                    }
                    if next.contains(k) {
                        let j = choose|j: int| 0 <= j < next.len() && next[j] == k;
                        if j < i {
                            assert(done[j] == k);
                        }
                    }
                }
            }
            if overwrite {
                self.insert(name, value);
            } else {
                self.insert_if_absent(name, value);
            }
            proof {
                assert forall|k: Seq<char>|
                    self@.contains_key(k) <==> before@.contains_key(k) || next.contains(k) by {
                    if k == names[i] {
                        assert(self@.contains_key(k));
                    } else {
                        assert(self@.contains_key(k) <==> held@.contains_key(k));
                        assert(next.contains(k) <==> done.contains(k));
                    }
                }
                assert forall|k: Seq<char>| self@.contains_key(k) implies self@[k] == if next.contains(
                    k,
                ) && (overwrite || !before@.contains_key(k)) {
                    values[names.index_of(k)]
                } else {
                    before@[k]
                } by {
                    if k != names[i] {
                        assert(next.contains(k) <==> done.contains(k));
                        assert(held@.contains_key(k));
                        assert(self@[k] == held@[k]);
                    }
                }
            }
        }
        proof {
            assert(names.subrange(0, names.len() as int) =~= names);
            assert forall|k: Seq<char>| names.contains(k) implies other@[k]
                == values[names.index_of(k)] by {
                let j = names.index_of(k);
                assert(other@[names[j]] == values[j]);
            }
            assert forall|k: Seq<char>|
                self@.contains_key(k) <==> before@.contains_key(k) || other@.contains_key(k) by {
                assert(other@.contains_key(k) <==> names.contains(k));
            }
            if overwrite {
                assert(self@ =~= before@.union_prefer_right(other@));
            } else {
                assert(self@ =~= other@.union_prefer_right(before@));
            }
        }
    }

    /// Lays `other` over `self`: every entry of `other` is put into `self`,
    /// in place of the value that its name had there.
    pub fn overwrite_with(&mut self, other: Dict<V>)
        ensures
            final(self)@ == old(self)@.union_prefer_right(other@),
            final(self).names() == old(self).names() + fresh_names(
                old(self)@.dom(),
                other.names(),
            ),
    {
        self.merge(other, true);
    }

    /// Lays `self` over `other`: an entry of `other` is put into `self` only
    /// if `self` has none of that name.
    pub fn fill_from(&mut self, other: Dict<V>)
        ensures
            final(self)@ == other@.union_prefer_right(old(self)@),
            final(self).names() == old(self).names() + fresh_names(
                old(self)@.dom(),
                other.names(),
            ),
    {
        self.merge(other, false);
    }
}

impl<V: DeepView + Clone> Clone for Dict<V> {
    /// A mapping with the same names in the same order, each with a clone of
    /// its value.
    fn clone(&self) -> (copy: Self)
        ensures
            copy.names() == self.names(),
    {
        let n = self.len();
        let ghost names = self.names();
        proof {
            use_type_invariant(self);
            self.lemma_entries();
        }
        let mut copy: Dict<V> = Dict::new();
        let mut i: usize = 0;
        while i < n
            invariant
                names == self.names(),
                n == names.len(),
                i <= n,
                names.no_duplicates(),
                copy.names() == names.subrange(0, i as int),
            decreases n - i,
        {
            let name = self.name_at(i).clone();
            let value = self.value_at(i).clone();
            proof {
                use_type_invariant(&copy);
                copy.lemma_entries();
                if copy@.contains_key(name@) {
                    let j = choose|j: int|
                        0 <= j < copy.names().len() && copy.names()[j] == names[i as int];
                    assert(names[j] == names[i as int]);
                }
            }
            copy.insert(name, value);
            assert(copy.names() =~= names.subrange(0, i + 1));
            i += 1;
        }
        assert(names.subrange(0, n as int) =~= names);
        copy
    }
}

impl<V: SameValue> PartialEq for Dict<V> {
    /// Whether both mappings hold the same values under the same names, in
    /// whatever order.
    fn eq(&self, other: &Self) -> (r: bool) {
        proof {
            use_type_invariant(self);
            use_type_invariant(other);
            self.lemma_entries();
            other.lemma_entries();
        }
        let n = self.len();
        if n != other.len() {
            return false;
        }
        let ghost names = self.names();
        let mut i: usize = 0;
        while i < n
            invariant
                names == self.names(),
                n == names.len(),
                i <= n,
                forall|j: int|
                    0 <= j < names.len() ==> self@.contains_key(#[trigger] names[j]),
                forall|j: int|
                    0 <= j < i ==> other@.contains_key(#[trigger] names[j]) && other@[names[j]]
                        == self@[names[j]],
            decreases n - i,
        {
            let same = match other.get(self.name_at(i).as_str()) {
                Some(value) => self.value_at(i).same_value(value),
                None => false,
            };
            if !same {
                assert(self@.contains_key(names[i as int]));
                assert(self@ != other@);
                return false;
            }
            i += 1;
        }
        proof {
            assert forall|k: Seq<char>| self@.dom().contains(k) implies other@.dom().contains(
                k,
            ) by {
                let j = choose|j: int| 0 <= j < names.len() && names[j] == k;
                assert(other@.contains_key(names[j]));
            }
            vstd::set_lib::lemma_subset_equality(self@.dom(), other@.dom());
            assert forall|k: Seq<char>| self@.contains_key(k) implies self@[k] == other@[k] by {
                let j = choose|j: int| 0 <= j < names.len() && names[j] == k;
                assert(other@.contains_key(names[j]));
            }
            assert(self@ =~= other@);
        }
        true
    }
}

impl<V: SameValue> vstd::std_specs::cmp::PartialEqSpecImpl for Dict<V> {
    open spec fn obeys_eq_spec() -> bool {
        true
    }

    open spec fn eq_spec(&self, other: &Self) -> bool {
        self@ == other@
    }
}

impl<V: SameValue> Eq for Dict<V> {

}

} // verus!
