//! Small sequential handles for type identities.

use vstd::prelude::*;

use core::any::TypeId;

verus! {

#[verifier::external_type_specification]
#[verifier::external_body]
pub struct ExTypeId(TypeId);

/// Relies on `TypeId::of`: the identity of a type; nothing about its value
/// is assumed.
pub assume_specification<T: ?Sized + 'static>[ TypeId::of::<T> ]() -> TypeId;

/// Relies on `TypeId`'s `==`: two identities are equal exactly when they
/// are the same value.
pub assume_specification[ <TypeId as PartialEq>::eq ](a: &TypeId, b: &TypeId) -> (r: bool)
    ensures
        r == (*a == *b),
;

/// The identity of a type, as the runtime gives it.
#[derive(Debug, Clone, Copy, PartialEq, Eq, Hash)]
pub struct InternalTypeId(TypeId);

impl InternalTypeId {
    pub fn of<T: 'static>() -> (r: Self) {
        InternalTypeId(TypeId::of::<T>())
    }

    pub fn same(&self, other: &Self) -> (r: bool)
        ensures
            r == (*self == *other),
    {
        self.0 == other.0
    }
}

/// Assigns each distinct type identity a small handle, in order of first
/// request: the first identity gets 0, the next new one 1, and so on.
pub struct TypeRegistry {
    types: Vec<InternalTypeId>,
}

impl View for TypeRegistry {
    type V = Seq<InternalTypeId>;

    /// The registered identities; an identity's handle is its index.
    closed spec fn view(&self) -> Seq<InternalTypeId> {
        self.types@
    }
}

impl TypeRegistry {
    /// Handles are one-to-one: no identity is registered twice.
    pub closed spec fn wf(&self) -> bool {
        self.types@.no_duplicates()
    }

    pub fn new() -> (r: Self)
        ensures
            r.wf(),
            r@ == Seq::<InternalTypeId>::empty(),
    {
        TypeRegistry { types: Vec::new() }
    }

    /// The number of handles assigned so far.
    pub fn len(&self) -> (r: usize)
        ensures
            r == self@.len(),
    {
        self.types.len()
    }

    /// The handle of `id`, if it has one.
    pub fn lookup(&self, id: &InternalTypeId) -> (r: Option<usize>)
        requires
            self.wf(),
        ensures
            match r {
                Some(h) => h < self@.len() && self@[h as int] == *id,
                None => !self@.contains(*id),
            },
    {
        let mut i: usize = 0;
        while i < self.types.len()
            invariant
                i <= self.types@.len(),
                forall|j: int| 0 <= j < i ==> self.types@[j] != *id,
            decreases self.types@.len() - i,
        {
            if self.types[i].same(id) {
                return Some(i);
            }
            i = i + 1;
        }
        None
    }

    /// The handle of `id`, assigning the next one when `id` is new.
    pub fn handle(&mut self, id: InternalTypeId) -> (r: usize)
        requires
            old(self).wf(),
            old(self)@.len() < usize::MAX,
        ensures
            final(self).wf(),
            r < final(self)@.len(),
            final(self)@[r as int] == id,
            old(self)@.contains(id) ==> final(self)@ == old(self)@,
            !old(self)@.contains(id) ==> final(self)@ == old(self)@.push(id) && r == old(self)@.len(),
    {
        match self.lookup(&id) {
            Some(h) => h,
            None => {
                let h = self.types.len();
                self.types.push(id);
                proof {
                    assert forall|a: int, b: int|
                        0 <= a < b < self.types@.len() implies self.types@[a] != self.types@[b] by {
                        if b == h {
                            assert(old(self)@[a] != id);
                        }
                    }
                }
                h
            },
        }
    }

    /// The handle of type `T`.
    pub fn handle_of<T: 'static>(&mut self) -> (r: usize)
        requires
            old(self).wf(),
            old(self)@.len() < usize::MAX,
        ensures
            final(self).wf(),
            r < final(self)@.len(),
            final(self)@.len() <= old(self)@.len() + 1,
            old(self)@ == final(self)@.subrange(0, old(self)@.len() as int),
    {
        let r = self.handle(InternalTypeId::of::<T>());
        proof {
            assert(old(self)@ =~= final(self)@.subrange(0, old(self)@.len() as int));
        }
        r
    }
}

} // verus!
