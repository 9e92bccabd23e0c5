//! Runtime type tags.

use vstd::prelude::*;
use vstd::std_specs::cmp::PartialEqSpecImpl;
use vstd::std_specs::hash::DefaultHasherAdditionalSpecFns;
use std::any::TypeId;
use std::collections::hash_map::DefaultHasher;
use std::hash::Hash;
use std::hash::Hasher;

verus! {

/// std's `TypeId`, carried through as an opaque value.
#[verifier::external_type_specification]
#[verifier::external_body]
pub struct ExTypeId(TypeId);

/// `TypeId::of` hands back the identifier that the compiler gave to `T`.
/// Nothing is claimed about which identifier that is.
pub assume_specification<T: ?Sized + 'static>[ TypeId::of::<T> ]() -> (id: TypeId);

/// The key of a type identifier: the digest that std's default hasher, new
/// and fed the identifier alone, finishes with.
pub uninterp spec fn key_of(id: TypeId) -> u64;

/// `Hash::hash` of std on a `TypeId`: feeds the identifier to a hasher. A
/// new default hasher always starts from the same state, so what it
/// finishes with after the identifier alone depends on the identifier alone.
#[verifier::external_body]
fn feed(id: &TypeId, state: &mut DefaultHasher)
    requires
        old(state)@ == Seq::<Seq<u8>>::empty(),
    ensures
        DefaultHasher::spec_finish(final(state)@) == key_of(*id),
{
    id.hash(state);
}

/// A type tag: a 64-bit key, by which tags are compared and stored, and a
/// readable name that is only ever shown to people.
#[derive(Clone, Copy, Debug)]
pub struct TypeIdNamed {
    pub id: u64,
    pub name: &'static str,
}

impl TypeIdNamed {
    /// The tag of the Rust type `T`, under the name that the caller gives it:
    /// its key is the key of the identifier that std gives to `T`.
    pub fn of<T: 'static>(name: &'static str) -> (tag: TypeIdNamed)
        ensures
            tag.name == name,
            exists|id: TypeId| call_ensures(TypeId::of::<T>, (), id) && tag.id == key_of(id),
    {
        let mut state = DefaultHasher::new();
        let id = TypeId::of::<T>();
        feed(&id, &mut state);
        TypeIdNamed { id: state.finish(), name }
    }

    /// The key of this tag.
    pub fn id(&self) -> (key: u64)
        ensures
            key == self.id,
    {
        self.id
    }
}

impl PartialEq for TypeIdNamed {
    /// Two tags are the same tag when their keys agree; names do not count.
    fn eq(&self, other: &Self) -> (same: bool) {
        self.id == other.id
    }
}

impl PartialEqSpecImpl for TypeIdNamed {
    open spec fn obeys_eq_spec() -> bool {
        true
    }

    open spec fn eq_spec(&self, other: &Self) -> bool {
        self.id == other.id
    }
}

} // verus!
