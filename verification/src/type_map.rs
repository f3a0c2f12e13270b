//! The declared type of each name in scope.

use vstd::prelude::*;

use crate::types::{TypeRef, TypeRefV};

verus! {

/// Names and their types, as a list of entries.
pub struct TypeMap {
    entries: Vec<(String, TypeRef)>,
}

/// The type of the first entry named `name`.
pub open spec fn lookup_type(es: Seq<(Seq<char>, TypeRefV)>, name: Seq<char>) -> Option<TypeRefV>
    decreases es.len(),
{
    if es.len() == 0 {
        None
    } else {
        match lookup_type(es.drop_last(), name) {
            Some(t) => Some(t),
            None => if es.last().0 == name {
                Some(es.last().1)
            } else {
                None
            },
        }
    }
}

/// The entries whose name is not `name`, in order.
pub open spec fn without_name(es: Seq<(Seq<char>, TypeRefV)>, name: Seq<char>) -> Seq<(Seq<char>, TypeRefV)>
    decreases es.len(),
{
    if es.len() == 0 {
        Seq::empty()
    } else if es.last().0 == name {
        without_name(es.drop_last(), name)
    } else {
        without_name(es.drop_last(), name).push(es.last())
    }
}

pub proof fn lemma_lookup_first(es: Seq<(Seq<char>, TypeRefV)>, name: Seq<char>, i: int)
    requires
        0 <= i < es.len(),
        es[i].0 == name,
        forall|j: int| 0 <= j < i ==> es[j].0 != name,
    ensures
        lookup_type(es, name) == Some(es[i].1),
    decreases es.len(),
{
    if i < es.len() - 1 {
        lemma_lookup_first(es.drop_last(), name, i);
    } else {
        lemma_lookup_absent(es.drop_last(), name);
    }
}

pub proof fn lemma_lookup_absent(es: Seq<(Seq<char>, TypeRefV)>, name: Seq<char>)
    requires
        forall|j: int| 0 <= j < es.len() ==> es[j].0 != name,
    ensures
        lookup_type(es, name) is None,
    decreases es.len(),
{
    if es.len() > 0 {
        lemma_lookup_absent(es.drop_last(), name);
    }
}

/// Lookups of `name` agree on entry lists that agree on every entry that could be named `name`.
pub proof fn lemma_lookup_congruent(a: Seq<(Seq<char>, TypeRefV)>, b: Seq<(Seq<char>, TypeRefV)>, name: Seq<char>)
    requires
        a.len() == b.len(),
        forall|j: int| 0 <= j < a.len() ==> (a[j].0 == name) == (b[j].0 == name),
        forall|j: int| 0 <= j < a.len() && a[j].0 == name ==> a[j].1 == b[j].1,
    ensures
        lookup_type(a, name) == lookup_type(b, name),
    decreases a.len(),
{
    if a.len() > 0 {
        lemma_lookup_congruent(a.drop_last(), b.drop_last(), name);
    }
}

pub proof fn lemma_without_name(es: Seq<(Seq<char>, TypeRefV)>, name: Seq<char>, other: Seq<char>)
    ensures
        lookup_type(without_name(es, name), other) == if other == name {
            None
        } else {
            lookup_type(es, other)
        },
    decreases es.len(),
{
    if es.len() > 0 {
        lemma_without_name(es.drop_last(), name, other);
        let w = without_name(es.drop_last(), name);
        if es.last().0 != name {
            assert(w.push(es.last()).drop_last() == w);
        }
    }
}

impl TypeMap {
    pub closed spec fn entries(&self) -> Seq<(Seq<char>, TypeRefV)> {
        self.entries@.map_values(|e: (String, TypeRef)| (e.0@, e.1@))
    }

    /// The type of `name`, if it has one.
    pub open spec fn lookup(&self, name: Seq<char>) -> Option<TypeRefV> {
        lookup_type(self.entries(), name)
    }

    pub fn new() -> (r: Self)
        ensures
            forall|n: Seq<char>| #[trigger] r.lookup(n) is None,
            r@ == Map::<Seq<char>, TypeRefV>::empty(),
    {
        let r = TypeMap { entries: Vec::new() };
        assert(r.entries() =~= Seq::<(Seq<char>, TypeRefV)>::empty());
        assert(r@ =~= Map::<Seq<char>, TypeRefV>::empty());
        r
    }

    /// The position of the first entry named `name`.
    fn position(&self, name: &str) -> (r: Option<usize>)
        ensures
            match r {
                Some(i) => i < self.entries().len() && self.entries()[i as int].0 == name@ && forall|
                    j: int,
                | 0 <= j < i ==> self.entries()[j].0 != name@,
                None => forall|j: int| 0 <= j < self.entries().len() ==> self.entries()[j].0 != name@,
            },
    {
        let wanted = name.to_owned();
        for i in 0..self.entries.len()
            invariant
                wanted@ == name@,
                self.entries().len() == self.entries@.len(),
                forall|j: int| 0 <= j < i ==> self.entries()[j].0 != name@,
        {
            assert(self.entries()[i as int].0 == self.entries@[i as int].0@);
            if self.entries[i].0 == wanted {
                return Some(i);
            }
        }
        None
    }

    /// Gives `name` the type `type_ref`.
    pub fn insert(&mut self, name: String, type_ref: TypeRef)
        ensures
            final(self).lookup(name@) == Some(type_ref@),
            forall|n: Seq<char>| n != name@ ==> #[trigger] final(self).lookup(n) == old(self).lookup(n),
            final(self)@ == old(self)@.insert(name@, type_ref@),
    {
        let ghost t = type_ref@;
        let ghost key = name@;
        match self.position(name.as_str()) {
            Some(i) => {
                self.entries.set(i, (name, type_ref));
                assert(self.entries() =~= old(self).entries().update(i as int, (key, t)));
                proof {
                    lemma_lookup_first(self.entries(), key, i as int);
                    assert forall|n: Seq<char>| n != key implies #[trigger] self.lookup(n) == old(
                        self,
                    ).lookup(n) by {
                        lemma_lookup_congruent(self.entries(), old(self).entries(), n);
                    }
                }
            },
            None => {
                self.entries.push((name, type_ref));
                assert(self.entries() =~= old(self).entries().push((key, t)));
                proof {
                    assert(self.entries().drop_last() == old(self).entries());
                    lemma_lookup_absent(old(self).entries(), key);
                }
            },
        }
        assert(self@ =~= old(self)@.insert(key, t));
    }

    /// The type of `name`.
    pub fn get(&self, name: &str) -> (r: Option<&TypeRef>)
        ensures
            match r {
                Some(t) => self.lookup(name@) == Some(t@) && self@.contains_key(name@) && self@[name@] == t@,
                None => self.lookup(name@) is None && !self@.contains_key(name@),
            },
    {
        match self.position(name) {
            Some(i) => {
                proof {
                    lemma_lookup_first(self.entries(), name@, i as int);
                }
                Some(&self.entries[i].1)
            },
            None => {
                proof {
                    lemma_lookup_absent(self.entries(), name@);
                }
                None
            },
        }
    }

    /// Takes `name` out of scope.
    pub fn remove(&mut self, name: &str)
        ensures
            final(self).lookup(name@) is None,
            forall|n: Seq<char>| n != name@ ==> #[trigger] final(self).lookup(n) == old(self).lookup(n),
            final(self)@ == old(self)@.remove(name@),
    {
        let wanted = name.to_owned();
        let mut kept: Vec<(String, TypeRef)> = Vec::new();
        let ghost es = self.entries();
        for i in 0..self.entries.len()
            invariant
                wanted@ == name@,
                es == self.entries(),
                es.len() == self.entries@.len(),
                kept@.map_values(|e: (String, TypeRef)| (e.0@, e.1@)) == without_name(
                    es.take(i as int),
                    name@,
                ),
        {
            assert(es.take(i + 1).drop_last() == es.take(i as int));
            assert(es.take(i + 1).last() == es[i as int]);
            assert(es[i as int] == (self.entries@[i as int].0@, self.entries@[i as int].1@));
            if !(self.entries[i].0 == wanted) {
                let entry = (self.entries[i].0.clone(), self.entries[i].1.clone());
                kept.push(entry);
                assert(kept@.map_values(|e: (String, TypeRef)| (e.0@, e.1@)) =~= without_name(
                    es.take(i as int),
                    name@,
                ).push(es[i as int]));
            }
        }
        assert(es.take(es.len() as int) == es);
        self.entries = kept;
        proof {
            lemma_without_name(es, name@, name@);
            assert forall|n: Seq<char>| n != name@ implies #[trigger] self.lookup(n) == old(
                self,
            ).lookup(n) by {
                lemma_without_name(es, name@, n);
            }
        }
        assert(self@ =~= old(self)@.remove(name@));
    }
}

impl View for TypeMap {
    type V = Map<Seq<char>, TypeRefV>;

    /// Each name in scope and its type.
    open spec fn view(&self) -> Map<Seq<char>, TypeRefV> {
        Map::new(|n: Seq<char>| self.lookup(n) is Some, |n: Seq<char>| self.lookup(n)->Some_0)
    }
}

impl Clone for TypeMap {
    fn clone(&self) -> (r: Self)
        ensures
            r.entries() == self.entries(),
            r@ == self@,
    {
        let mut entries: Vec<(String, TypeRef)> = Vec::new();
        for i in 0..self.entries.len()
            invariant
                entries@.len() == i,
                i <= self.entries@.len(),
                forall|j: int| 0 <= j < i ==> (#[trigger] entries@[j]).0@ == self.entries@[j].0@
                    && entries@[j].1@ == self.entries@[j].1@,
        {
            entries.push((self.entries[i].0.clone(), self.entries[i].1.clone()));
        }
        let r = TypeMap { entries };
        assert(r.entries() =~= self.entries());
        assert(r@ =~= self@);
        r
    }
}

} // verus!
