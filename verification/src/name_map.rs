//! A map from names to small values that can be copied.

use vstd::hash_map::StringHashMap;
use vstd::prelude::*;

use crate::text::texts;

verus! {

/// A hash map keyed by text, with a list of its keys from which it can be copied.
#[verifier::reject_recursive_types(V)]
pub struct NameMap<V> {
    names: Vec<String>,
    entries: StringHashMap<V>,
}

impl<V> View for NameMap<V> {
    type V = Map<Seq<char>, V>;

    closed spec fn view(&self) -> Map<Seq<char>, V> {
        self.entries@
    }
}

impl<V: Copy> NameMap<V> {
    /// Every key of the map is in the list of names.
    pub closed spec fn wf(self) -> bool {
        forall|name: Seq<char>| #[trigger]
            self.entries@.contains_key(name) ==> texts(self.names@).contains(name)
    }

    /// Makes a map without entries.
    pub fn new() -> (r: NameMap<V>)
        ensures
            r.wf(),
            r@ == Map::<Seq<char>, V>::empty(),
    {
        NameMap { names: Vec::new(), entries: StringHashMap::new() }
    }

    /// Sets the value of a name.
    pub fn insert(&mut self, name: String, value: V)
        requires
            old(self).wf(),
        ensures
            final(self).wf(),
            final(self)@ == old(self)@.insert(name@, value),
    {
        let ghost before = self.names@;
        if !self.entries.contains_key(name.as_str()) {
            self.names.push(name.clone());
            assert(texts(self.names@) =~= texts(before).push(name@));
            assert(texts(self.names@)[before.len() as int] == name@);
            assert forall|k: Seq<char>| #[trigger] texts(before).contains(k) implies texts(
                self.names@,
            ).contains(k) by {
                let i = choose|i: int| 0 <= i < texts(before).len() && texts(before)[i] == k;
                assert(texts(self.names@)[i] == k);
            }
        }
        self.entries.insert(name, value);
    }

    /// Looks up the value of a name.
    pub fn get(&self, name: &str) -> (r: Option<V>)
        ensures
            r == (if self@.contains_key(name@) {
                Some(self@[name@])
            } else {
                None
            }),
    {
        match self.entries.get(name) {
            Some(value) => Some(*value),
            None => None,
        }
    }

    /// Takes over the entries of another map.
    pub fn update_from(&mut self, other: &NameMap<V>)
        requires
            old(self).wf(),
            other.wf(),
        ensures
            final(self).wf(),
            final(self)@ == old(self)@.union_prefer_right(other@),
    {
        let ghost start = self@;
        let ghost goal = start.union_prefer_right(other@);
        let mut i: usize = 0;
        while i < other.names.len()
            invariant
                i <= other.names.len(),
                self.wf(),
                goal == start.union_prefer_right(other@),
                forall|k: Seq<char>| #[trigger] start.contains_key(k) ==> self@.contains_key(k),
                forall|k: Seq<char>| #[trigger]
                    self@.contains_key(k) ==> goal.contains_key(k) && (self@[k] == goal[k] || (
                    start.contains_key(k) && self@[k] == start[k])),
                forall|j: int|
                    0 <= j < i && other@.contains_key(#[trigger] other.names@[j]@)
                        ==> self@.contains_key(other.names@[j]@) && self@[other.names@[j]@]
                        == goal[other.names@[j]@],
            decreases other.names.len() - i,
        {
            match other.entries.get(other.names[i].as_str()) {
                Some(value) => {
                    self.insert(other.names[i].clone(), *value);
                },
                None => {},
            }
            i = i + 1;
        }
        assert forall|k: Seq<char>| #[trigger] goal.contains_key(k) implies self@.contains_key(k)
            && self@[k] == goal[k] by {
            if other@.contains_key(k) {
                let j = choose|j: int|
                    0 <= j < texts(other.names@).len() && texts(other.names@)[j] == k;
                assert(other.names@[j]@ == k);
            } else {
                assert(start.contains_key(k));
            }
        }
        assert(self@ =~= goal);
    }

    /// Makes a second map with the same entries.
    pub fn copy(&self) -> (r: NameMap<V>)
        requires
            self.wf(),
        ensures
            r.wf(),
            r@ == self@,
    {
        let mut out: NameMap<V> = NameMap::new();
        let mut i: usize = 0;
        while i < self.names.len()
            invariant
                i <= self.names.len(),
                out.wf(),
                forall|k: Seq<char>| #[trigger]
                    out@.contains_key(k) ==> self@.contains_key(k) && out@[k] == self@[k],
                forall|j: int|
                    0 <= j < i && self@.contains_key(#[trigger] self.names@[j]@)
                        ==> out@.contains_key(self.names@[j]@),
            decreases self.names.len() - i,
        {
            match self.entries.get(self.names[i].as_str()) {
                Some(value) => {
                    out.insert(self.names[i].clone(), *value);
                },
                None => {},
            }
            i = i + 1;
        }
        assert forall|k: Seq<char>| #[trigger] self@.contains_key(k) implies out@.contains_key(
            k,
        ) by {
            let j = choose|j: int| 0 <= j < texts(self.names@).len() && texts(self.names@)[j] == k;
            assert(self.names@[j]@ == k);
        }
        assert(out@ =~= self@);
        out
    }
}

} // verus!
