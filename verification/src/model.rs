//! The mathematical view of a world, and what each operation makes of it.

use vstd::prelude::*;
use crate::collections::pushed;
use crate::ecs::Component;
use crate::ecs::Entity;
use crate::ecs::System;
use crate::ecs::SystemError;
use crate::type_id::TypeIdNamed;

verus! {

/// The predicate "this slot belongs to entity `id`".
pub open spec fn owned_by<C>(id: usize) -> spec_fn((usize, Component<C>)) -> bool {
    |slot: (usize, Component<C>)| slot.0 == id
}

/// The predicate "this slot belongs to another entity than `id`".
pub open spec fn not_owned_by<C>(id: usize) -> spec_fn((usize, Component<C>)) -> bool {
    |slot: (usize, Component<C>)| slot.0 != id
}

/// The component that a slot holds.
pub open spec fn component_of<C>() -> spec_fn((usize, Component<C>)) -> Component<C> {
    |slot: (usize, Component<C>)| slot.1
}

/// Whether `refs` refers to the items of `items`, one for one and in order.
pub open spec fn refers_to<T>(refs: Seq<&T>, items: Seq<T>) -> bool {
    &&& refs.len() == items.len()
    &&& forall|i: int| 0 <= i < refs.len() ==> *(#[trigger] refs[i]) == items[i]
}

/// Whether `at` is the position of the oldest slot in `slots` that belongs
/// to entity `id`.
pub open spec fn first_owned_at<C>(slots: Seq<(usize, Component<C>)>, id: usize, at: int) -> bool {
    &&& 0 <= at < slots.len()
    &&& slots[at].0 == id
    &&& forall|j: int| 0 <= j < at ==> (#[trigger] slots[j]).0 != id
}

/// Whether `kinds` names the type with key `key`.
pub open spec fn names(kinds: Seq<TypeIdNamed>, key: u64) -> bool {
    exists|i: int| 0 <= i < kinds.len() && (#[trigger] kinds[i]).id == key
}

/// Whether `kinds` names each key of `components` once, and no other key.
pub open spec fn catalogued<V>(kinds: Seq<TypeIdNamed>, components: Map<u64, V>) -> bool {
    &&& forall|i: int, j: int|
        0 <= i < j < kinds.len() ==> (#[trigger] kinds[i]).id != (#[trigger] kinds[j]).id
    &&& forall|key: u64|
        #![trigger components.contains_key(key)]
        #![trigger names(kinds, key)]
        components.contains_key(key) <==> names(kinds, key)
}

/// What a world holds, as plain mathematics.
///
/// `kinds` lists the component types in the order in which each was first
/// used; `components` maps the key of a type to its slots, oldest first; a
/// slot is the id of the owning entity and the component. `spawned` counts the
/// entities issued so far, which are exactly the ids below it.
pub struct WorldView<C, R, S> {
    pub name_type: TypeIdNamed,
    pub kinds: Seq<TypeIdNamed>,
    pub components: Map<u64, Seq<(usize, Component<C>)>>,
    pub resources: Map<u64, R>,
    pub systems: Map<usize, Seq<(S, &'static str)>>,
    pub spawned: nat,
}

impl<C, R, S> WorldView<C, R, S> {
    /// The world that holds nothing and has issued no entity.
    pub open spec fn empty(name_type: TypeIdNamed) -> Self {
        WorldView {
            name_type,
            kinds: Seq::empty(),
            components: Map::empty(),
            resources: Map::empty(),
            systems: Map::empty(),
            spawned: 0,
        }
    }

    /// The list of types names each stored type once, and names no other.
    pub open spec fn wf(self) -> bool {
        catalogued(self.kinds, self.components)
    }

    /// Whether entity `id` has been issued.
    pub open spec fn issued(self, id: usize) -> bool {
        id < self.spawned
    }

    /// The slots of the type with key `key`; none for a type never stored.
    pub open spec fn bucket(self, key: u64) -> Seq<(usize, Component<C>)> {
        if self.components.contains_key(key) {
            self.components[key]
        } else {
            Seq::empty()
        }
    }

    /// The components of the type with key `key` that entity `id` owns,
    /// oldest first.
    pub open spec fn owned(self, key: u64, id: usize) -> Seq<Component<C>> {
        self.bucket(key).filter(owned_by(id)).map_values(component_of())
    }

    /// The predicate "entity `id` owns a component of this type".
    pub open spec fn has_some(self, id: usize) -> spec_fn(TypeIdNamed) -> bool {
        |kind: TypeIdNamed| self.owned(kind.id, id).len() > 0
    }

    /// A type together with the components of it that entity `id` owns.
    pub open spec fn group_of(self, id: usize) -> spec_fn(TypeIdNamed) -> (
        TypeIdNamed,
        Seq<Component<C>>,
    ) {
        |kind: TypeIdNamed| (kind, self.owned(kind.id, id))
    }

    /// Everything that entity `id` owns, grouped by type: the types of which
    /// it owns a component, in the order of the list of types, each with
    /// those components, oldest first.
    pub open spec fn groups(self, id: usize) -> Seq<(TypeIdNamed, Seq<Component<C>>)> {
        self.kinds.filter(self.has_some(id)).map_values(self.group_of(id))
    }

    /// Issuing one entity.
    pub open spec fn spawn_empty(self) -> Self {
        WorldView { spawned: self.spawned + 1, ..self }
    }

    /// Attaching `component` to entity `id` under the type `tag`: the slot
    /// goes to the end of that type's slots, and a type that is new to the
    /// store goes to the end of the list of types.
    pub open spec fn insert(self, id: usize, tag: TypeIdNamed, component: Component<C>) -> Self {
        WorldView {
            kinds: if self.components.contains_key(tag.id) {
                self.kinds
            } else {
                self.kinds.push(tag)
            },
            components: pushed(self.components, tag.id, (id, component)),
            ..self
        }
    }

    /// Dropping every component of the type with key `key` that entity `id`
    /// owns. The other slots keep their order.
    pub open spec fn remove(self, key: u64, id: usize) -> Self {
        if self.components.contains_key(key) {
            WorldView {
                components: self.components.insert(
                    key,
                    self.components[key].filter(not_owned_by(id)),
                ),
                ..self
            }
        } else {
            self
        }
    }

    /// Putting `component` in the place of the component in the slot at
    /// `at` of the type with key `key`. The slot stays where it is and keeps
    /// its entity.
    pub open spec fn replace(self, key: u64, at: int, component: Component<C>) -> Self {
        WorldView {
            components: self.components.insert(
                key,
                self.bucket(key).update(at, (self.bucket(key)[at].0, component)),
            ),
            ..self
        }
    }

    /// Dropping every component and every type; entities issued stay issued.
    pub open spec fn clear(self) -> Self {
        WorldView { kinds: Seq::empty(), components: Map::empty(), ..self }
    }

    /// Storing `value` as the resource with key `key`, in place of any
    /// earlier one.
    pub open spec fn add_resource(self, key: u64, value: R) -> Self {
        WorldView { resources: self.resources.insert(key, value), ..self }
    }

    /// Dropping the resource with key `key`.
    pub open spec fn take_resource(self, key: u64) -> Self {
        WorldView { resources: self.resources.remove(key), ..self }
    }

    /// The systems registered for the stage with index `stage`, in the order
    /// of their registration.
    pub open spec fn stage(self, stage: usize) -> Seq<(S, &'static str)> {
        if self.systems.contains_key(stage) {
            self.systems[stage]
        } else {
            Seq::empty()
        }
    }

    /// Whether the world `later` may come after this one: every entity that
    /// was issued is still issued, and every stage still holds the systems
    /// that it held, in their order and before any that were added.
    pub open spec fn precedes(self, later: Self) -> bool {
        &&& self.spawned <= later.spawned
        &&& forall|stage: usize| (#[trigger] self.stage(stage)).is_prefix_of(later.stage(stage))
    }

    /// Registering `system` under `name` at the end of a stage.
    pub open spec fn add_system(self, stage: usize, system: S, name: &'static str) -> Self {
        WorldView { systems: pushed(self.systems, stage, (system, name)), ..self }
    }
}

/// Whether `at` is the position of the oldest slot in `slots` that holds the
/// label `text`.
pub open spec fn labelled_at<C>(slots: Seq<(usize, Component<C>)>, text: Seq<char>, at: int) -> bool {
    &&& 0 <= at < slots.len()
    &&& slots[at].1.is_label(text)
    &&& forall|j: int| 0 <= j < at ==> !(#[trigger] slots[j]).1.is_label(text)
}

/// Whether `found` is the entity of the oldest slot of `slots` that holds
/// the label `text`, or nothing where no slot holds that label.
pub open spec fn first_labelled<C>(
    slots: Seq<(usize, Component<C>)>,
    text: Seq<char>,
    found: Option<Entity>,
) -> bool {
    match found {
        Some(entity) => exists|at: int|
            #[trigger] labelled_at(slots, text, at) && slots[at].0 == entity.id,
        None => forall|i: int| 0 <= i < slots.len() ==> !(#[trigger] slots[i]).1.is_label(text),
    }
}

/// The failures among the first `outcomes.len()` systems of `bucket`, in the
/// order in which the systems ran: the name of each system that failed, with
/// its error.
pub open spec fn failures<S>(
    bucket: Seq<(S, &'static str)>,
    outcomes: Seq<Result<(), String>>,
) -> Seq<SystemError>
    decreases outcomes.len(),
{
    if outcomes.len() == 0 {
        Seq::empty()
    } else {
        let earlier = failures(bucket, outcomes.drop_last());
        match outcomes.last() {
            Ok(_) => earlier,
            Err(error) => earlier.push(
                SystemError { system: bucket[outcomes.len() - 1].1, error },
            ),
        }
    }
}

/// Whether `trace` and `outcomes` record one run of `bucket`: the systems
/// were called one after another, in the order of the bucket, each on the
/// world that the one before it left, and `outcomes` holds what each
/// returned. A failure changes nothing about who runs next. No call takes
/// an entity or a registration back.
pub open spec fn is_run<C, R, S: System<C, R>>(
    bucket: Seq<(S, &'static str)>,
    trace: Seq<WorldView<C, R, S>>,
    outcomes: Seq<Result<(), String>>,
) -> bool {
    &&& trace.len() == bucket.len() + 1
    &&& outcomes.len() == bucket.len()
    &&& forall|i: int|
        0 <= i < bucket.len() ==> (#[trigger] bucket[i]).0.step(trace[i], trace[i + 1], outcomes[i])
    &&& forall|i: int| 0 <= i < bucket.len() ==> (#[trigger] trace[i]).precedes(trace[i + 1])
}

/// Whether running `bucket` on the world `pre` can leave the world `post`
/// and report `errors`.
pub open spec fn runs_to<C, R, S: System<C, R>>(
    bucket: Seq<(S, &'static str)>,
    pre: WorldView<C, R, S>,
    post: WorldView<C, R, S>,
    errors: Seq<SystemError>,
) -> bool {
    exists|trace: Seq<WorldView<C, R, S>>, outcomes: Seq<Result<(), String>>|
        {
            &&& #[trigger] is_run(bucket, trace, outcomes)
            &&& trace[0] == pre
            &&& trace[bucket.len() as int] == post
            &&& errors == failures(bucket, outcomes)
        }
}

} // verus!
