//! Types by name.
use std::sync::Arc;

use vstd::prelude::*;

use crate::names::{increasing, increasing_is_distinct, texts, NameSet, Slot};
use crate::types::{Ty, Type};

verus! {

/// Types by name, in the order of the names.
#[derive(Debug, PartialEq, Eq)]
pub struct TypeMap {
    names: NameSet,
    types: Vec<Type>,
}

/// Where `name` stands among `names`.
pub open spec fn slot_of(names: Seq<Seq<char>>, name: Seq<char>) -> int {
    choose|i: int| 0 <= i < names.len() && names[i] == name
}

impl View for TypeMap {
    type V = Map<Seq<char>, Ty>;

    closed spec fn view(&self) -> Map<Seq<char>, Ty> {
        Map::new(
            |name: Seq<char>| self.names@.contains(name),
            |name: Seq<char>| self.types@[slot_of(self.names@, name)].model(),
        )
    }
}

impl TypeMap {
    /// The names stand in order, with one type for each.
    pub closed spec fn wf(self) -> bool {
        &&& self.names.wf()
        &&& self.types@.len() == self.names@.len()
    }

    /// The names, in order.
    pub closed spec fn keys(self) -> Seq<Seq<char>> {
        self.names@
    }

    /// An empty map.
    pub fn new() -> (map: TypeMap)
        ensures
            map.wf(),
            map@ == Map::<Seq<char>, Ty>::empty(),
    {
        let map = TypeMap { names: NameSet::new(), types: Vec::new() };
        assert(map@ =~= Map::<Seq<char>, Ty>::empty());
        map
    }

    /// The number of names.
    pub fn len(&self) -> (len: usize)
        requires
            self.wf(),
        ensures
            len == self@.dom().len(),
            self@.dom().finite(),
    {
        proof {
            let keys = self.names@;
            assert(keys.no_duplicates()) by {
                assert forall|i: int, j: int| 0 <= i < keys.len() && 0 <= j < keys.len() && i != j implies keys[i]
                    != keys[j] by {
                    if keys[i] == keys[j] {
                        increasing_is_distinct(keys, i, j);
                    }
                }
            }
            keys.unique_seq_to_set();
            assert(self@.dom() =~= keys.to_set());
        }
        self.names.len()
    }

    /// The names, in ascending order.
    pub fn names(&self) -> (names: Vec<Arc<str>>)
        requires
            self.wf(),
        ensures
            texts(names@) == self.keys(),
            increasing(self.keys()),
            forall|name: Seq<char>| #[trigger] self.keys().contains(name) <==> self@.contains_key(name),
    {
        let mut names: Vec<Arc<str>> = Vec::new();
        let mut i: usize = 0;
        while i < self.names.len()
            invariant
                i <= self.keys().len(),
                self.keys() == self.names@,
                texts(names@) == self.keys().take(i as int),
            decreases self.keys().len() - i,
        {
            let ghost before = names@;
            names.push(self.names.name(i));
            i += 1;
            assert(texts(names@) =~= texts(before).push(self.keys()[i - 1]));
            assert(self.keys().take(i as int) =~= self.keys().take(i - 1).push(self.keys()[i - 1]));
        }
        assert(self.keys().take(i as int) =~= self.keys());
        names
    }

    /// The type that `name` names.
    pub fn get(&self, name: &str) -> (found: Option<&Type>)
        requires
            self.wf(),
        ensures
            match found {
                Some(ty) => self@.contains_key(name@) && ty.model() == self@[name@],
                None => !self@.contains_key(name@),
            },
    {
        match self.names.position(name) {
            Some(i) => {
                proof {
                    assert(self.names@.contains(name@));
                    increasing_is_distinct(self.names@, i as int, slot_of(self.names@, name@));
                }
                Some(&self.types[i])
            },
            None => None,
        }
    }

    /// Names a type. The name must be new.
    pub fn insert(&mut self, name: Arc<str>, ty: Type)
        requires
            old(self).wf(),
            !old(self)@.contains_key((*name)@),
        ensures
            final(self).wf(),
            final(self)@ == old(self)@.insert((*name)@, ty.model()),
    {
        let ghost before = *self;
        match self.names.locate(&name) {
            Slot::At(i) => {
                assert(self.names@.contains((*name)@));
            },
            Slot::Before(i) => {
                let ghost text = (*name)@;
                self.names.insert_at(i, name);
                self.types.insert(i, ty);
                proof {
                    let (old_keys, new_keys) = (before.names@, self.names@);
                    assert(new_keys[i as int] == text);
                    assert forall|n: Seq<char>| new_keys.contains(n) <==> old_keys.contains(n) || n == text by {
                        if old_keys.contains(n) {
                            let k = choose|k: int| 0 <= k < old_keys.len() && old_keys[k] == n;
                            if k < i {
                                assert(new_keys[k] == n);
                            } else {
                                assert(new_keys[k + 1] == n);
                            }
                        }
                        if new_keys.contains(n) && n != text {
                            let k = choose|k: int| 0 <= k < new_keys.len() && new_keys[k] == n;
                            if k < i {
                                assert(old_keys[k] == n);
                            } else {
                                assert(old_keys[k - 1] == n);
                            }
                        }
                    }
                    assert forall|n: Seq<char>| new_keys.contains(n) implies self.types@[slot_of(new_keys, n)].model()
                        == before@.insert(text, ty.model())[n] by {
                        let k = slot_of(new_keys, n);
                        if n == text {
                            increasing_is_distinct(new_keys, k, i as int);
                        } else {
                            let j = slot_of(old_keys, n);
                            assert(old_keys.contains(n));
                            if j < i {
                                increasing_is_distinct(new_keys, k, j);
                            } else {
                                increasing_is_distinct(new_keys, k, j + 1);
                            }
                        }
                    }
                    assert(self@ =~= before@.insert(text, ty.model()));
                }
            },
        }
    }
}

} // verus!
