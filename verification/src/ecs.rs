//! Entities, the component store, the resource registry and the scheduler.

use vstd::prelude::*;
use std::any::TypeId;
use std::collections::HashMap;
use std::rc::Rc;
use crate::collections::HashMapExt;
use crate::collections::pushed;
use crate::collections::share;
use crate::model::WorldView;
use crate::model::first_labelled;
use crate::model::labelled_at;
use crate::model::owned_by;
use crate::model::not_owned_by;
use crate::model::component_of;
use crate::model::refers_to;
use crate::model::first_owned_at;
use crate::model::failures;
use crate::model::is_run;
use crate::model::runs_to;
use crate::laws::lemma_insert_keeps_catalogue;
use crate::laws::lemma_precedes_in_turn;
use crate::type_id::TypeIdNamed;
use crate::type_id::key_of;

verus! {

/// The label that `World::spawn` attaches to an entity.
#[derive(Clone, PartialEq, Eq, Debug)]
pub struct Name(pub String);

/// What a slot of the store holds: a label, which is the one component type
/// that the world itself reads, or a component of the caller's.
#[derive(Clone, PartialEq, Eq, Debug)]
pub enum Component<C> {
    Name(Name),
    Custom(C),
}

impl<C> Component<C> {
    /// Whether this is the label `text`.
    pub open spec fn is_label(self, text: Seq<char>) -> bool {
        self matches Component::Name(name) && name.0@ == text
    }
}

/// A handle to a logical object. It carries an id and nothing else.
#[derive(Clone, Copy, PartialEq, Eq, Structural, Debug)]
pub struct Entity {
    pub id: usize,
}

/// The stages of a frame, in the order in which a driver runs them.
#[derive(Clone, Copy, PartialEq, Eq, Structural, Hash, Debug)]
pub enum Stage {
    Init,
    Start,
    PreDraw,
    Draw,
    PostDraw,
    Event,
}

impl Stage {
    /// The position of a stage in the order above, from 0.
    pub open spec fn spec_index(self) -> usize {
        match self {
            Stage::Init => 0,
            Stage::Start => 1,
            Stage::PreDraw => 2,
            Stage::Draw => 3,
            Stage::PostDraw => 4,
            Stage::Event => 5,
        }
    }

    #[verifier::when_used_as_spec(spec_index)]
    pub fn index(self) -> (i: usize)
        ensures
            i == self.spec_index(),
    {
        match self {
            Stage::Init => 0,
            Stage::Start => 1,
            Stage::PreDraw => 2,
            Stage::Draw => 3,
            Stage::PostDraw => 4,
            Stage::Event => 5,
        }
    }
}

/// The failure of one system during a run of its stage.
#[derive(Clone, PartialEq, Eq, Debug)]
pub struct SystemError {
    /// The name under which the system was registered.
    pub system: &'static str,
    /// What the system returned.
    pub error: String,
}

/// A unit of work that a stage runs on the world.
///
/// A system keeps no state of its own between calls: what it needs from one
/// call to the next it keeps in a resource. The world shares each system
/// that is registered, so that a stage can run its systems while they change
/// the world, the list of systems included.
pub trait System<C, R>: Sized {
    /// What one call may make of the world: whether a call that starts on the
    /// world `pre` can leave the world `post` and return `outcome`. A system
    /// that says nothing may do anything.
    open spec fn step(
        &self,
        pre: WorldView<C, R, Self>,
        post: WorldView<C, R, Self>,
        outcome: Result<(), String>,
    ) -> bool {
        true
    }

    /// Runs the system once. A system works on the world through the
    /// operations of the world, and so keeps its invariant, takes back no
    /// entity that was issued, and leaves every system registered that was
    /// registered.
    fn run(&self, world: &mut World<C, R, Self>) -> (outcome: Result<(), String>)
        ensures
            old(world).wf() ==> final(world).wf(),
            old(world)@.precedes(final(world)@),
            self.step(old(world)@, final(world)@, outcome),
    ;
}

/// A registration as mathematics: the system behind the shared pointer, and
/// its name.
pub open spec fn registration<S>() -> spec_fn((Rc<S>, &'static str)) -> (S, &'static str) {
    |entry: (Rc<S>, &'static str)| (*entry.0, entry.1)
}

/// The registrations of a stage as mathematics.
pub open spec fn registrations<S>() -> spec_fn(Seq<(Rc<S>, &'static str)>) -> Seq<
    (S, &'static str),
> {
    |list: Seq<(Rc<S>, &'static str)>| list.map_values(registration())
}

/// The registrations of every stage as mathematics.
pub open spec fn schedule<S>(lists: Map<usize, Seq<(Rc<S>, &'static str)>>) -> Map<
    usize,
    Seq<(S, &'static str)>,
> {
    lists.map_values(registrations())
}

/// The store of components, the registry of resources and the scheduler of
/// one running engine.
pub struct World<C, R, S> {
    name_type: TypeIdNamed,
    kinds: Vec<TypeIdNamed>,
    components: HashMap<u64, Vec<(usize, Component<C>)>>,
    resources: HashMap<u64, R>,
    systems: HashMap<usize, Vec<(Rc<S>, &'static str)>>,
    next: usize,
}

impl<C, R, S> View for World<C, R, S> {
    type V = WorldView<C, R, S>;

    closed spec fn view(&self) -> WorldView<C, R, S> {
        WorldView {
            name_type: self.name_type,
            kinds: self.kinds@,
            components: self.components.lists(),
            resources: self.resources@,
            systems: schedule(self.systems.lists()),
            spawned: self.next as nat,
        }
    }
}

impl<C, R, S> World<C, R, S> {
    /// The invariant of a world, which `new` establishes and every
    /// operation keeps.
    pub open spec fn wf(&self) -> bool {
        self@.wf()
    }

    /// A world that holds nothing.
    pub fn new() -> (world: Self)
        ensures
            world.wf(),
            world@ == WorldView::<C, R, S>::empty(world@.name_type),
            world@.name_type.name == "Name",
            exists|id: TypeId|
                call_ensures(TypeId::of::<Name>, (), id) && world@.name_type.id == key_of(id),
    {
        let world = World {
            name_type: TypeIdNamed::of::<Name>("Name"),
            kinds: Vec::new(),
            components: HashMap::new(),
            resources: HashMap::new(),
            systems: HashMap::new(),
            next: 0,
        };
        proof {
            assert(world.components.lists() =~= Map::empty());
            assert(schedule(world.systems.lists()) =~= Map::empty());
        }
        world
    }

    /// The type tag under which labels are stored.
    pub fn name_type(&self) -> (tag: TypeIdNamed)
        ensures
            tag == self@.name_type,
    {
        self.name_type
    }

    /// How many entities this world has issued.
    pub fn spawned(&self) -> (n: usize)
        ensures
            n == self@.spawned,
    {
        self.next
    }

    /// Issues an entity that was never issued before, with no component.
    pub fn spawn_empty(&mut self) -> (entity: Entity)
        requires
            old(self)@.spawned < usize::MAX,
        ensures
            old(self).wf() ==> final(self).wf(),
            entity.id == old(self)@.spawned,
            !old(self)@.issued(entity.id),
            final(self)@.issued(entity.id),
            final(self)@ == old(self)@.spawn_empty(),
    {
        let entity = Entity { id: self.next };
        self.next = self.next + 1;
        entity
    }

    /// Issues an entity and attaches the label `name` to it.
    pub fn spawn(&mut self, name: &str) -> (entity: Entity)
        requires
            old(self)@.spawned < usize::MAX,
        ensures
            old(self).wf() ==> final(self).wf(),
            entity.id == old(self)@.spawned,
            !old(self)@.issued(entity.id),
            final(self)@.issued(entity.id),
            final(self)@.bucket(old(self)@.name_type.id).len() > 0,
            final(self)@.bucket(old(self)@.name_type.id).last().1.is_label(name@),
            final(self)@ == old(self)@.spawn_empty().insert(
                entity.id,
                old(self)@.name_type,
                final(self)@.bucket(old(self)@.name_type.id).last().1,
            ),
    {
        let label = Component::Name(Name(name.to_owned()));
        let tag = self.name_type;
        self.spawn_empty().insert(self, tag, label)
    }

    /// Every slot of the type `tag`, oldest first: the entity and its
    /// component.
    pub fn query(&self, tag: TypeIdNamed) -> (found: Vec<(Entity, &Component<C>)>)
        ensures
            found@.len() == self@.bucket(tag.id).len(),
            forall|i: int|
                0 <= i < found@.len() ==> (#[trigger] found@[i]).0.id == self@.bucket(tag.id)[i].0
                    && *found@[i].1 == self@.bucket(tag.id)[i].1,
    {
        broadcast use vstd::std_specs::hash::group_hash_axioms;

        let mut found: Vec<(Entity, &Component<C>)> = Vec::new();
        match self.components.get(&tag.id) {
            Some(slots) => {
                let mut i: usize = 0;
                while i < slots.len()
                    invariant
                        i <= slots.len(),
                        slots@ == self@.bucket(tag.id),
                        found@.len() == i,
                        forall|j: int|
                            0 <= j < i ==> (#[trigger] found@[j]).0.id == slots@[j].0 && *found@[j].1
                                == slots@[j].1,
                    decreases slots.len() - i,
                {
                    found.push((Entity { id: slots[i].0 }, &slots[i].1));
                    i += 1;
                }
            },
            None => {},
        }
        found
    }

    /// The first entity, in the order of the label slots, that carries the
    /// label `name`.
    pub fn get_name(&self, name: &str) -> (found: Option<Entity>)
        ensures
            first_labelled(self@.bucket(self@.name_type.id), name@, found),
    {
        broadcast use vstd::std_specs::hash::group_hash_axioms;

        let wanted = name.to_owned();
        match self.components.get(&self.name_type.id) {
            Some(slots) => {
                let mut i: usize = 0;
                while i < slots.len()
                    invariant
                        i <= slots.len(),
                        wanted@ == name@,
                        slots@ == self@.bucket(self@.name_type.id),
                        forall|j: int| 0 <= j < i ==> !(#[trigger] slots@[j]).1.is_label(name@),
                    decreases slots.len() - i,
                {
                    match &slots[i].1 {
                        Component::Name(label) => {
                            if label.0 == wanted {
                                let found = Entity { id: slots[i].0 };
                                assert(labelled_at(slots@, name@, i as int));
                                return Some(found);
                            }
                        },
                        Component::Custom(_) => {},
                    }
                    i += 1;
                }
                None
            },
            None => None,
        }
    }

    /// Drops every component of the type `tag` that entity `id` owns.
    pub fn remove_id(&mut self, tag: TypeIdNamed, id: usize)
        ensures
            old(self).wf() ==> final(self).wf(),
            final(self)@ == old(self)@.remove(tag.id, id),
    {
        broadcast use vstd::std_specs::hash::group_hash_axioms;

        match self.components.remove(&tag.id) {
            Some(slots) => {
                let ghost all = slots@;
                let mut kept: Vec<(usize, Component<C>)> = Vec::new();
                proof {
                    reveal(Seq::filter);
                    assert(all.take(0) =~= Seq::empty());
                }
                for slot in it: slots
                    invariant
                        it.seq() == all,
                        kept@ == all.take(it.index() as int).filter(not_owned_by(id)),
                {
                    proof {
                        let i = it.index() as int;
                        assert(slot == all[i]);
                        assert(all.take(i + 1) =~= all.take(i).push(all[i]));
                        all.take(i).lemma_filter_push(all[i], not_owned_by(id));
                    }
                    if slot.0 != id {
                        kept.push(slot);
                    }
                }
                proof {
                    assert(all.take(all.len() as int) =~= all);
                }
                self.components.insert(tag.id, kept);
                proof {
                    assert(self@.components =~= old(self)@.remove(tag.id, id).components);
                }
            },
            None => {
                proof {
                    assert(self@.components =~= old(self)@.components);
                }
            },
        }
    }

    /// Drops every component and forgets every type. Entities that were
    /// issued stay issued, and resources and systems stay.
    pub fn clear(&mut self)
        ensures
            final(self).wf(),
            final(self)@ == old(self)@.clear(),
    {
        self.kinds.clear();
        self.components.clear();
        proof {
            assert(self@.components =~= Map::empty());
        }
    }

    /// The types that the store has seen, each once, in the order in which
    /// each was first used.
    pub fn kinds(&self) -> (kinds: Vec<TypeIdNamed>)
        ensures
            kinds@ == self@.kinds,
    {
        let mut kinds: Vec<TypeIdNamed> = Vec::new();
        let mut i: usize = 0;
        while i < self.kinds.len()
            invariant
                i <= self.kinds.len(),
                kinds@ == self.kinds@.take(i as int),
            decreases self.kinds.len() - i,
        {
            kinds.push(self.kinds[i]);
            proof {
                assert(self.kinds@.take(i + 1) =~= self.kinds@.take(i as int).push(self.kinds@[i as int]));
            }
            i += 1;
        }
        proof {
            assert(self.kinds@.take(self.kinds@.len() as int) =~= self.kinds@);
        }
        kinds
    }
}

impl<C, R, S> World<C, R, S> {
    /// Stores `value` as the resource of the type `tag`, in place of any
    /// earlier one.
    pub fn add_resource(&mut self, tag: TypeIdNamed, value: R)
        ensures
            final(self)@ == old(self)@.add_resource(tag.id, value),
            old(self).wf() ==> final(self).wf(),
    {
        broadcast use vstd::std_specs::hash::group_hash_axioms;

        self.resources.insert(tag.id, value);
    }

    /// The resource of the type `tag`, to read.
    pub fn resource(&self, tag: TypeIdNamed) -> (found: Option<&R>)
        ensures
            match found {
                Some(value) => self@.resources.contains_key(tag.id) && *value
                    == self@.resources[tag.id],
                None => !self@.resources.contains_key(tag.id),
            },
    {
        broadcast use vstd::std_specs::hash::group_hash_axioms;

        self.resources.get(&tag.id)
    }

    /// The resource of the type `tag`, to read and to change in place. What
    /// the caller leaves behind the reference is what the registry holds
    /// afterwards.
    pub fn get_resource(&mut self, tag: TypeIdNamed) -> (found: Option<&mut R>)
        ensures
            match found {
                Some(value) => old(self)@.resources.contains_key(tag.id) && *value == old(
                    self,
                )@.resources[tag.id] && final(self)@ == old(self)@.add_resource(
                    tag.id,
                    *final(value),
                ),
                None => !old(self)@.resources.contains_key(tag.id) && final(self)@ == old(self)@,
            },
            old(self).wf() ==> final(self).wf(),
    {
        broadcast use vstd::std_specs::hash::group_hash_axioms;

        match self.resources.entry(tag.id) {
            std::collections::hash_map::Entry::Occupied(slot) => Some(slot.into_mut()),
            std::collections::hash_map::Entry::Vacant(_) => {
                proof {
                    assert(after_borrow(self.resources)@ =~= old(self).resources@);
                }
                None
            },
        }
    }

    /// Takes the resource of the type `tag` out of the registry.
    pub fn take_resource(&mut self, tag: TypeIdNamed) -> (taken: Option<R>)
        ensures
            match taken {
                Some(value) => old(self)@.resources.contains_key(tag.id) && value == old(
                    self,
                )@.resources[tag.id],
                None => !old(self)@.resources.contains_key(tag.id),
            },
            final(self)@ == old(self)@.take_resource(tag.id),
            old(self).wf() ==> final(self).wf(),
    {
        broadcast use vstd::std_specs::hash::group_hash_axioms;

        self.resources.remove(&tag.id)
    }

    /// Registers `system` under `name` at the end of `stage`.
    pub fn add_system(&mut self, stage: Stage, system: S, name: &'static str)
        ensures
            final(self)@ == old(self)@.add_system(stage.index(), system, name),
            old(self).wf() ==> final(self).wf(),
    {
        broadcast use vstd::std_specs::hash::group_hash_axioms;

        let ghost before = self.systems.lists();
        let shared = Rc::new(system);
        self.systems.push_or_insert(stage.index(), (shared, name));
        proof {
            let at = stage.index();
            let after = self.systems.lists();
            assert(after == pushed(before, at, (shared, name)));
            if before.contains_key(at) {
                assert(before[at].push((shared, name)).map_values(registration())
                    =~= before[at].map_values(registration()).push((system, name)));
            } else {
                assert(seq![(shared, name)].map_values(registration()) =~= seq![(system, name)]);
            }
            assert(schedule(after) =~= pushed(schedule(before), at, (system, name)));
        }
    }

    /// Registers `handler` under `name` at the end of the stage `Event`:
    /// a handler of events is a system of that stage.
    pub fn add_event_handler(&mut self, handler: S, name: &'static str)
        ensures
            final(self)@ == old(self)@.add_system(Stage::Event.index(), handler, name),
            old(self).wf() ==> final(self).wf(),
    {
        self.add_system(Stage::Event, handler, name);
    }
}

impl<C, R, S: System<C, R>> World<C, R, S> {
    /// Runs the systems that are registered for `stage` when the call
    /// starts, each once, in the order of their registration. A system that
    /// fails is reported and the next one runs all the same.
    pub fn run_system(&mut self, stage: Stage) -> (errors: Vec<SystemError>)
        ensures
            old(self).wf() ==> final(self).wf(),
            old(self)@.precedes(final(self)@),
            runs_to(old(self)@.stage(stage.index()), old(self)@, final(self)@, errors@),
    {
        broadcast use vstd::std_specs::hash::group_hash_axioms;

        let mut bucket: Vec<(Rc<S>, &'static str)> = Vec::new();
        match self.systems.get(&stage.index()) {
            Some(registered) => {
                let mut i: usize = 0;
                while i < registered.len()
                    invariant
                        i <= registered.len(),
                        bucket@ == registered@.take(i as int),
                    decreases registered.len() - i,
                {
                    bucket.push((share(&registered[i].0), registered[i].1));
                    proof {
                        assert(registered@.take(i + 1) =~= registered@.take(i as int).push(
                            registered@[i as int],
                        ));
                    }
                    i += 1;
                }
                proof {
                    assert(registered@.take(registered@.len() as int) =~= registered@);
                }
            },
            None => {},
        }
        let ghost systems = bucket@.map_values(registration());
        assert(systems =~= old(self)@.stage(stage.index()));

        let mut errors: Vec<SystemError> = Vec::new();
        let ghost mut trace: Seq<WorldView<C, R, S>> = seq![self@];
        let ghost mut outcomes: Seq<Result<(), String>> = Seq::empty();
        let mut j: usize = 0;
        while j < bucket.len()
            invariant
                j <= bucket.len(),
                old(self).wf() ==> self.wf(),
                trace.len() == j + 1,
                outcomes.len() == j,
                trace[0] == old(self)@,
                trace[j as int] == self@,
                systems == bucket@.map_values(registration()),
                forall|i: int|
                    0 <= i < j ==> (#[trigger] systems[i]).0.step(trace[i], trace[i + 1], outcomes[i]),
                forall|i: int| 0 <= i < j ==> (#[trigger] trace[i]).precedes(trace[i + 1]),
                old(self)@.precedes(self@),
                errors@ == failures(systems, outcomes),
            decreases bucket.len() - j,
        {
            let name = bucket[j].1;
            let ghost before = self@;
            let outcome = bucket[j].0.run(self);
            proof {
                lemma_precedes_in_turn(old(self)@, before, self@);
                trace = trace.push(self@);
                assert(outcomes.push(outcome).drop_last() =~= outcomes);
                outcomes = outcomes.push(outcome);
            }
            match outcome {
                Ok(_) => {},
                Err(error) => {
                    errors.push(SystemError { system: name, error });
                },
            }
            j += 1;
        }
        proof {
            assert(is_run(systems, trace, outcomes));
        }
        errors
    }
}

impl<C, R, S: System<C, R>> World<C, R, S> {
    /// Hands one event to its handlers: stores `event` as the resource of
    /// the type `tag`, in place of the event before it, and runs the stage
    /// `Event`.
    pub fn run_event_handler(&mut self, tag: TypeIdNamed, event: R) -> (errors: Vec<SystemError>)
        ensures
            old(self).wf() ==> final(self).wf(),
            old(self)@.precedes(final(self)@),
            runs_to(
                old(self)@.add_resource(tag.id, event).stage(Stage::Event.index()),
                old(self)@.add_resource(tag.id, event),
                final(self)@,
                errors@,
            ),
    {
        self.add_resource(tag, event);
        let ghost stored = self@;
        let errors = self.run_system(Stage::Event);
        proof {
            lemma_precedes_in_turn(old(self)@, stored, self@);
        }
        errors
    }
}

impl Entity {
    /// Attaches `component` to this entity under the type `tag`, after every
    /// component of that type that the store holds already. Hands the entity
    /// back so that calls can be chained.
    pub fn insert<C, R, S>(
        self,
        world: &mut World<C, R, S>,
        tag: TypeIdNamed,
        component: Component<C>,
    ) -> (entity: Entity)
        ensures
            old(world).wf() ==> final(world).wf(),
            entity == self,
            final(world)@ == old(world)@.insert(self.id, tag, component),
    {
        broadcast use vstd::std_specs::hash::group_hash_axioms;

        if !world.components.contains_key(&tag.id) {
            world.kinds.push(tag);
        }
        world.components.push_or_insert(tag.id, (self.id, component));
        proof {
            let pre = old(world)@;
            assert(world@.components =~= pushed(pre.components, tag.id, (self.id, component)));
            if pre.wf() {
                lemma_insert_keeps_catalogue(pre, self.id, tag, component);
            }
        }
        self
    }

    /// The components of the type `tag` that this entity owns, oldest first.
    pub fn get<'a, C, R, S>(&self, world: &'a World<C, R, S>, tag: TypeIdNamed) -> (found: Vec<
        &'a Component<C>,
    >)
        ensures
            refers_to(found@, world@.owned(tag.id, self.id)),
    {
        broadcast use vstd::std_specs::hash::group_hash_axioms;

        let mut found: Vec<&Component<C>> = Vec::new();
        match world.components.get(&tag.id) {
            Some(slots) => {
                let ghost all = slots@;
                let mut i: usize = 0;
                proof {
                    reveal(Seq::filter);
                    assert(all.take(0) =~= Seq::empty());
                    assert(all.take(0).filter(owned_by(self.id)).map_values(component_of())
                        =~= Seq::empty());
                }
                while i < slots.len()
                    invariant
                        i <= slots.len(),
                        all == slots@,
                        all == world@.bucket(tag.id),
                        refers_to(
                            found@,
                            all.take(i as int).filter(owned_by(self.id)).map_values(component_of()),
                        ),
                    decreases slots.len() - i,
                {
                    proof {
                        let seen = all.take(i as int);
                        assert(all.take(i + 1) =~= seen.push(all[i as int]));
                        seen.lemma_filter_push(all[i as int], owned_by(self.id));
                        assert(seen.filter(owned_by(self.id)).push(all[i as int]).map_values(
                            component_of(),
                        ) =~= seen.filter(owned_by(self.id)).map_values(component_of()).push(
                            all[i as int].1,
                        ));
                    }
                    if slots[i].0 == self.id {
                        found.push(&slots[i].1);
                    }
                    i += 1;
                }
                proof {
                    assert(all.take(all.len() as int) =~= all);
                }
            },
            None => {
                proof {
                    reveal(Seq::filter);
                    assert(world@.owned(tag.id, self.id) =~= Seq::empty());
                }
            },
        }
        found
    }

    /// The oldest component of the type `tag` that this entity owns.
    pub fn get_one<'a, C, R, S>(&self, world: &'a World<C, R, S>, tag: TypeIdNamed) -> (found:
        Option<&'a Component<C>>)
        ensures
            match found {
                Some(component) => world@.owned(tag.id, self.id).len() > 0 && *component
                    == world@.owned(tag.id, self.id)[0],
                None => world@.owned(tag.id, self.id).len() == 0,
            },
    {
        let all = self.get(world, tag);
        if all.len() > 0 {
            Some(all[0])
        } else {
            None
        }
    }

    /// The position, among the slots of the type `tag`, of the oldest
    /// component of that type that this entity owns.
    pub fn position<C, R, S>(&self, world: &World<C, R, S>, tag: TypeIdNamed) -> (at: Option<usize>)
        ensures
            match at {
                Some(at) => first_owned_at(world@.bucket(tag.id), self.id, at as int),
                None => forall|j: int|
                    0 <= j < world@.bucket(tag.id).len() ==> (#[trigger] world@.bucket(tag.id)[j]).0
                        != self.id,
            },
    {
        broadcast use vstd::std_specs::hash::group_hash_axioms;

        match world.components.get(&tag.id) {
            Some(slots) => {
                let mut i: usize = 0;
                while i < slots.len()
                    invariant
                        i <= slots.len(),
                        slots@ == world@.bucket(tag.id),
                        forall|j: int| 0 <= j < i ==> (#[trigger] slots@[j]).0 != self.id,
                    decreases slots.len() - i,
                {
                    if slots[i].0 == self.id {
                        return Some(i);
                    }
                    i += 1;
                }
                None
            },
            None => None,
        }
    }

    /// The oldest component of the type `tag` that this entity owns, to read
    /// and to change in place. What the caller leaves behind the reference
    /// is what the slot holds afterwards; nothing else changes.
    pub fn get_mut<'a, C, R, S>(&self, world: &'a mut World<C, R, S>, tag: TypeIdNamed) -> (found:
        Option<&'a mut Component<C>>)
        ensures
            match found {
                Some(component) => exists|at: int|
                    {
                        &&& #[trigger] first_owned_at(old(world)@.bucket(tag.id), self.id, at)
                        &&& *component == old(world)@.bucket(tag.id)[at].1
                        &&& final(world)@ == old(world)@.replace(tag.id, at, *final(component))
                    },
                None => final(world)@ == old(world)@ && forall|j: int|
                    0 <= j < old(world)@.bucket(tag.id).len() ==> (#[trigger] old(world)@.bucket(
                        tag.id,
                    )[j]).0 != self.id,
            },
            old(world).wf() ==> final(world).wf(),
    {
        broadcast use vstd::std_specs::hash::group_hash_axioms;

        match self.position(world, tag) {
            Some(at) => {
                match world.components.entry(tag.id) {
                    std::collections::hash_map::Entry::Occupied(held) => {
                        let slots = held.into_mut();
                        let ghost before = slots@;
                        let ghost after = *final(slots);
                        let component = &mut slots[at].1;
                        proof {
                            assert(before == old(world)@.bucket(tag.id));
                            assert(after@ =~= before.update(
                                at as int,
                                (before[at as int].0, *final(component)),
                            ));
                            assert(after_borrow(world.components)@ == old(world).components@.insert(
                                tag.id,
                                after,
                            ));
                            assert(after_borrow(world.components).lists() =~= old(
                                world,
                            ).components.lists().insert(
                                tag.id,
                                before.update(at as int, (before[at as int].0, *final(component))),
                            ));
                        }
                        Some(component)
                    },
                    std::collections::hash_map::Entry::Vacant(_) => {
                        proof {
                            assert(false);
                        }
                        None
                    },
                }
            },
            None => None,
        }
    }

    /// Everything that this entity owns, grouped by type.
    pub fn get_all<'a, C, R, S>(&self, world: &'a World<C, R, S>) -> (found: Vec<
        (TypeIdNamed, Vec<&'a Component<C>>),
    >)
        ensures
            found@.len() == world@.groups(self.id).len(),
            forall|i: int|
                0 <= i < found@.len() ==> (#[trigger] found@[i]).0 == world@.groups(self.id)[i].0
                    && refers_to(found@[i].1@, world@.groups(self.id)[i].1),
    {
        let mut found: Vec<(TypeIdNamed, Vec<&Component<C>>)> = Vec::new();
        let ghost kinds = world@.kinds;
        let ghost keep = world@.has_some(self.id);
        let ghost group = world@.group_of(self.id);
        let mut k: usize = 0;
        proof {
            reveal(Seq::filter);
            assert(kinds.take(0) =~= Seq::empty());
            assert(kinds.take(0).filter(keep).map_values(group) =~= Seq::empty());
        }
        while k < world.kinds.len()
            invariant
                k <= world.kinds.len(),
                kinds == world.kinds@,
                kinds == world@.kinds,
                keep == world@.has_some(self.id),
                group == world@.group_of(self.id),
                found@.len() == kinds.take(k as int).filter(keep).map_values(group).len(),
                forall|i: int|
                    0 <= i < found@.len() ==> (#[trigger] found@[i]).0 == kinds.take(
                        k as int,
                    ).filter(keep).map_values(group)[i].0 && refers_to(
                        found@[i].1@,
                        kinds.take(k as int).filter(keep).map_values(group)[i].1,
                    ),
            decreases world.kinds.len() - k,
        {
            let kind = world.kinds[k];
            let owned = self.get(world, kind);
            proof {
                let seen = kinds.take(k as int);
                assert(kinds.take(k + 1) =~= seen.push(kind));
                seen.lemma_filter_push(kind, keep);
                assert(seen.filter(keep).push(kind).map_values(group) =~= seen.filter(
                    keep,
                ).map_values(group).push((kind, world@.owned(kind.id, self.id))));
            }
            if owned.len() > 0 {
                found.push((kind, owned));
            }
            k += 1;
        }
        proof {
            assert(kinds.take(kinds.len() as int) =~= kinds);
        }
        found
    }
}

} // verus!
