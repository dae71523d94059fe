//! Typed data sets addressed by a small integer handle.

use vstd::prelude::*;

use crate::collections::SparseSet;
use crate::identity::TypeRegistry;

verus! {

/// The handle of one data set: the registry handle of its data type.
#[derive(Debug, Clone, Copy, PartialEq, Eq, Hash, PartialOrd, Ord, Structural)]
pub struct ComponentSetId(pub usize);

impl ComponentSetId {
    /// The handle of the data set that holds values of type `T`.
    pub fn of<T: 'static>(registry: &mut TypeRegistry) -> (r: Self)
        requires
            old(registry).wf(),
            old(registry)@.len() < usize::MAX,
        ensures
            final(registry).wf(),
            r.0 < final(registry)@.len(),
            final(registry)@.len() <= old(registry)@.len() + 1,
            old(registry)@ == final(registry)@.subrange(0, old(registry)@.len() as int),
    {
        ComponentSetId(registry.handle_of::<SparseSet<T>>())
    }

    pub fn index(&self) -> (r: usize)
        ensures
            r == self.0,
    {
        self.0
    }
}

/// The values of one data type, keyed by entity, with the handle of that
/// type. Access to the values goes through a handle check.
pub struct ComponentSet<V> {
    id: ComponentSetId,
    count: usize,
    set: SparseSet<V>,
}

impl<V> ComponentSet<V> {
    pub closed spec fn wf(&self) -> bool {
        &&& self.set.wf()
        &&& self.count == self.set@.len()
    }

    /// The handle recorded for the set.
    pub closed spec fn spec_id(&self) -> ComponentSetId {
        self.id
    }

    /// Values by entity key.
    pub closed spec fn entries(&self) -> Map<usize, V> {
        self.set@
    }

    pub fn new(id: ComponentSetId) -> (r: Self)
        ensures
            r.wf(),
            r.spec_id() == id,
            r.entries() == Map::<usize, V>::empty(),
    {
        ComponentSet { id, count: 0, set: SparseSet::new() }
    }

    pub fn len(&self) -> (r: usize)
        requires
            self.wf(),
        ensures
            r == self.entries().len(),
    {
        self.count
    }

    /// Stores `value` for entity `entity` and returns the value it replaced.
    pub fn insert(&mut self, entity: usize, value: V) -> (r: Option<V>)
        requires
            old(self).wf(),
            entity < usize::MAX,
        ensures
            final(self).wf(),
            final(self).spec_id() == old(self).spec_id(),
            final(self).entries() == old(self).entries().insert(entity, value),
            r == (if old(self).entries().contains_key(entity) {
                Some(old(self).entries()[entity])
            } else {
                None::<V>
            }),
    {
        let r = self.set.insert_with(entity, value);
        self.count = self.set.len();
        r
    }

    /// Removes the value of entity `entity`.
    pub fn remove(&mut self, entity: usize) -> (r: Option<V>)
        requires
            old(self).wf(),
        ensures
            final(self).wf(),
            final(self).spec_id() == old(self).spec_id(),
            final(self).entries() == old(self).entries().remove(entity),
            r == (if old(self).entries().contains_key(entity) {
                Some(old(self).entries()[entity])
            } else {
                None::<V>
            }),
    {
        let r = self.set.remove(entity);
        self.count = self.set.len();
        r
    }

    /// The set holds the data type with handle `id`.
    pub fn contains(&self, id: ComponentSetId) -> (r: bool)
        ensures
            r == (self.spec_id() == id),
    {
        self.id == id
    }

    pub fn id(&self) -> (r: ComponentSetId)
        ensures
            r == self.spec_id(),
    {
        self.id
    }

    /// The values, after checking that the set holds the data type `id`.
    pub fn raw_set(&self, id: ComponentSetId) -> (r: Option<&SparseSet<V>>)
        requires
            self.wf(),
        ensures
            match r {
                Some(s) => self.spec_id() == id && s.wf() && s@ == self.entries(),
                None => self.spec_id() != id,
            },
    {
        if self.id == id {
            Some(&self.set)
        } else {
            None
        }
    }
}

} // verus!
